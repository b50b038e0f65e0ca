//! The statement scanner of the interactive front end: a text is read as
//! whitespace-separated words, and each `let NAME = VALUE` binding in it is
//! handed on to `parse_value`.

use crate::rect::Matrix;
use crate::square::SquareMatrix;
use std::collections::HashMap;
use vstd::prelude::*;
use vstd::string::StrSliceExecFns;

verus! {

/// Why a text could not be scanned.
#[derive(Debug, Clone, Copy, PartialEq, Eq)]
pub enum ParseError {
    /// A `let` is not followed by a name and `=`.
    SyntaxError,
}

/// Unicode's White_Space property, which `char::is_whitespace` tests.
pub open spec fn is_space(c: char) -> bool {
    ('\u{9}' <= c && c <= '\u{d}') || c == ' ' || c == '\u{85}' || c == '\u{a0}' || c
        == '\u{1680}' || ('\u{2000}' <= c && c <= '\u{200a}') || c == '\u{2028}' || c
        == '\u{2029}' || c == '\u{202f}' || c == '\u{205f}' || c == '\u{3000}'
}

/// Length of the run of non-space characters that `s` starts with.
pub open spec fn word_len(s: Seq<char>) -> nat
    decreases s.len(),
{
    if s.len() == 0 || is_space(s[0]) {
        0
    } else {
        1 + word_len(s.drop_first())
    }
}

/// The maximal runs of non-space characters of `s`, in order.
pub open spec fn words(s: Seq<char>) -> Seq<Seq<char>>
    decreases s.len(),
{
    if s.len() == 0 {
        seq![]
    } else if is_space(s[0]) {
        words(s.drop_first())
    } else {
        let n = word_len(s);
        if 0 < n <= s.len() {
            seq![s.take(n as int)] + words(s.skip(n as int))
        } else {
            seq![]
        }
    }
}

/// The keyword that opens a binding.
pub open spec fn let_word() -> Seq<char> {
    seq!['l', 'e', 't']
}

/// The word between a bound name and its value.
pub open spec fn eq_word() -> Seq<char> {
    seq!['=']
}

/// Whether every `let` among the words `t` is followed by a name other than
/// `=` and then by `=`. After `let NAME = VALUE` the scan goes on behind
/// `VALUE`; a `let` that ends the text is let be.
pub open spec fn bindings_ok(t: Seq<Seq<char>>) -> bool
    decreases t.len(),
{
    if t.len() == 0 {
        true
    } else if t[0] == let_word() && t.len() >= 2 {
        if t[1] != eq_word() && t.len() >= 3 && t[2] == eq_word() {
            if t.len() >= 4 {
                bindings_ok(t.skip(4))
            } else {
                true
            }
        } else {
            false
        }
    } else {
        bindings_ok(t.skip(1))
    }
}

/// Whether `c` is a whitespace character.
pub fn is_whitespace(c: char) -> (r: bool)
    ensures
        r == is_space(c),
{
    ('\u{9}' <= c && c <= '\u{d}') || c == ' ' || c == '\u{85}' || c == '\u{a0}' || c == '\u{1680}'
        || ('\u{2000}' <= c && c <= '\u{200a}') || c == '\u{2028}' || c == '\u{2029}' || c
        == '\u{202f}' || c == '\u{205f}' || c == '\u{3000}'
}

proof fn lemma_word_len_bound(s: Seq<char>)
    ensures
        word_len(s) <= s.len(),
    decreases s.len(),
{
    if s.len() > 0 && !is_space(s[0]) {
        lemma_word_len_bound(s.drop_first());
    }
}

/// A run of non-space characters from `i` up to a space or the end of `s`
/// is the word that `s.skip(i)` starts with.
proof fn lemma_word_len_run(s: Seq<char>, i: int, j: int)
    requires
        0 <= i <= j <= s.len(),
        forall|k: int| i <= k < j ==> !is_space(#[trigger] s[k]),
        j == s.len() || is_space(s[j]),
    ensures
        word_len(s.skip(i)) == j - i,
    decreases j - i,
{
    if i < j {
        assert(s.skip(i).drop_first() =~= s.skip(i + 1));
        lemma_word_len_run(s, i + 1, j);
    } else {
        assert(s.skip(i).len() == 0 || s.skip(i)[0] == s[j]);
    }
}

/// The words of `text`, as strings.
pub fn split_words(text: &str) -> (r: Vec<String>)
    ensures
        r@.map_values(|w: String| w@) == words(text@),
{
    broadcast use vstd::string::group_string_axioms;

    let mut chars: Vec<char> = Vec::new();
    for c in it: text.chars()
        invariant
            chars@ == it.seq().take(it.index()),
    {
        chars.push(c);
    }
    let n = chars.len();
    assert(chars@ =~= text@);
    let ghost s = text@;
    let mut out: Vec<String> = Vec::new();
    let mut i: usize = 0;
    while i < n
        invariant
            n == s.len(),
            s == text@,
            chars@ == s,
            i <= n,
            out@.map_values(|w: String| w@) + words(s.skip(i as int)) == words(s),
        decreases n - i,
    {
        if is_whitespace(chars[i]) {
            proof {
                assert(s.skip(i as int).drop_first() =~= s.skip(i + 1));
            }
            i = i + 1;
        } else {
            let mut j: usize = i + 1;
            while j < n && !is_whitespace(chars[j])
                invariant
                    n == s.len(),
                    chars@ == s,
                    i < j <= n,
                    forall|k: int| i <= k < j ==> !is_space(#[trigger] s[k]),
                decreases n - j,
            {
                j = j + 1;
            }
            let w = text.substring_char(i, j).to_owned();
            proof {
                lemma_word_len_run(s, i as int, j as int);
                let t = s.skip(i as int);
                assert(t.take((j - i) as int) =~= s.subrange(i as int, j as int));
                assert(t.skip((j - i) as int) =~= s.skip(j as int));
                assert(words(t) == seq![t.take((j - i) as int)] + words(t.skip((j - i) as int)));
            }
            let ghost before = out@;
            out.push(w);
            proof {
                assert(out@.map_values(|w: String| w@) =~= before.map_values(|w: String| w@).push(
                    w@,
                ));
                assert(out@.map_values(|w: String| w@) + words(s.skip(j as int)) =~= before.map_values(
                    |w: String| w@,
                ) + words(s.skip(i as int)));
            }
            i = j;
        }
    }
    proof {
        assert(s.skip(n as int) =~= Seq::<char>::empty());
        assert(out@.map_values(|w: String| w@) + words(s.skip(n as int)) =~= out@.map_values(
            |w: String| w@,
        ));
    }
    out
}

/// Receives the text of the value bound to `name`. Every value is accepted
/// as written.
pub fn parse_value(value: String, name: String) {
}

/// Whether `w` spells `lit`.
fn is_word(w: &String, lit: &str) -> (r: bool)
    ensures
        r == (w@ == lit@),
{
    let l = lit.to_owned();
    *w == l
}

/// Scans `text` for bindings `let NAME = VALUE` and hands each on to
/// `parse_value`. Fails when a `let` that is followed by another word is not
/// followed by a name other than `=` and then `=`.
pub fn parse(text: String) -> (r: Result<(), ParseError>)
    ensures
        r is Ok <==> bindings_ok(words(text@)),
        r is Err ==> r->Err_0 == ParseError::SyntaxError,
{
    let tokens = split_words(text.as_str());
    let ghost t = words(text@);
    proof {
        reveal_strlit("let");
        reveal_strlit("=");
        assert("let"@ =~= let_word());
        assert("="@ =~= eq_word());
    }
    let n = tokens.len();
    let mut i: usize = 0;
    assert(t.skip(0) =~= t);
    while i < n
        invariant
            n == tokens@.len(),
            tokens@.map_values(|w: String| w@) == t,
            t == words(text@),
            "let"@ == let_word(),
            "="@ == eq_word(),
            i <= n,
            bindings_ok(t) == bindings_ok(t.skip(i as int)),
        decreases n - i,
    {
        let ghost u = t.skip(i as int);
        assert(u.len() == n - i);
        assert(u[0] == tokens@[i as int]@);
        if is_word(&tokens[i], "let") && i + 1 < n {
            assert(u[1] == tokens@[i + 1]@);
            let name = &tokens[i + 1];
            if !is_word(name, "=") && i + 2 < n && is_word(&tokens[i + 2], "=") {
                assert(u[2] == tokens@[i + 2]@);
                if i + 3 < n {
                    parse_value(tokens[i + 3].clone(), name.clone());
                    assert(u.skip(4) =~= t.skip(i + 4));
                    i = i + 4;
                } else {
                    i = n;
                    assert(t.skip(n as int) =~= Seq::<Seq<char>>::empty());
                }
            } else {
                if i + 2 < n {
                    assert(u[2] == tokens@[i + 2]@);
                }
                return Err(ParseError::SyntaxError);
            }
        } else {
            assert(u.skip(1) =~= t.skip(i + 1));
            i = i + 1;
        }
    }
    assert(t.skip(n as int) =~= Seq::<Seq<char>>::empty());
    Ok(())
}


/// The kind of value a variable name is bound to.
#[derive(Debug, Clone, Copy, PartialEq, Eq)]
pub enum SupportedTypes {
    SquareMatrix,
    Matrix,
    Number,
    Constant,
}

/// The variables of a session. Each name gets an id, its place in `names`;
/// every table is keyed by id, and `all_variables` holds the kind of every
/// bound id.
pub struct Data<T> {
    names: Vec<String>,
    square_matrices: HashMap<usize, SquareMatrix<T>>,
    matrices: HashMap<usize, Matrix<T>>,
    numbers: HashMap<usize, T>,
    constants: HashMap<usize, T>,
    all_variables: HashMap<usize, SupportedTypes>,
}

/// The tables of a session as contracts see them.
pub struct DataModel<T> {
    pub names: Seq<Seq<char>>,
    pub square_matrices: Map<usize, SquareMatrix<T>>,
    pub matrices: Map<usize, Matrix<T>>,
    pub numbers: Map<usize, T>,
    pub constants: Map<usize, T>,
    pub all_variables: Map<usize, SupportedTypes>,
}

impl<T> View for Data<T> {
    type V = DataModel<T>;

    closed spec fn view(&self) -> DataModel<T> {
        DataModel {
            names: self.names@.map_values(|n: String| n@),
            square_matrices: self.square_matrices@,
            matrices: self.matrices@,
            numbers: self.numbers@,
            constants: self.constants@,
            all_variables: self.all_variables@,
        }
    }
}

/// Whether `id` is bound, in `kinds`, to a value of kind `k`.
pub open spec fn bound_as(kinds: Map<usize, SupportedTypes>, id: usize, k: SupportedTypes) -> bool {
    kinds.contains_key(id) && kinds[id] == k
}

impl<T> DataModel<T> {
    /// Whether `id` is the id of `name`.
    pub open spec fn names_id(self, name: Seq<char>, id: usize) -> bool {
        id < self.names.len() && self.names[id as int] == name
    }

    /// No name has two ids; every table holds ids of names; the square
    /// matrix, matrix and number tables hold exactly the ids bound to their
    /// kind.
    pub open spec fn wf(self) -> bool {
        &&& forall|i: int, j: int|
            0 <= i < j < self.names.len() ==> self.names[i] != self.names[j]
        &&& forall|id: usize| #[trigger]
            self.all_variables.contains_key(id) ==> id < self.names.len()
        &&& forall|id: usize| #[trigger]
            self.constants.contains_key(id) ==> id < self.names.len()
        &&& forall|id: usize| #[trigger]
            self.square_matrices.contains_key(id) <==> bound_as(
                self.all_variables,
                id,
                SupportedTypes::SquareMatrix,
            )
        &&& forall|id: usize| #[trigger]
            self.matrices.contains_key(id) <==> bound_as(
                self.all_variables,
                id,
                SupportedTypes::Matrix,
            )
        &&& forall|id: usize| #[trigger]
            self.numbers.contains_key(id) <==> bound_as(
                self.all_variables,
                id,
                SupportedTypes::Number,
            )
    }
}

impl<T> Data<T> {
    /// A session with no variables.
    pub fn new() -> (r: Data<T>)
        ensures
            r@.wf(),
            r@.names == Seq::<Seq<char>>::empty(),
            r@.square_matrices == Map::<usize, SquareMatrix<T>>::empty(),
            r@.matrices == Map::<usize, Matrix<T>>::empty(),
            r@.numbers == Map::<usize, T>::empty(),
            r@.constants == Map::<usize, T>::empty(),
            r@.all_variables == Map::<usize, SupportedTypes>::empty(),
    {
        let r = Data {
            names: Vec::new(),
            square_matrices: HashMap::new(),
            matrices: HashMap::new(),
            numbers: HashMap::new(),
            constants: HashMap::new(),
            all_variables: HashMap::new(),
        };
        assert(r@.names =~= Seq::<Seq<char>>::empty());
        r
    }

    /// The id of `name`, if it has one.
    pub fn find(&self, name: &String) -> (r: Option<usize>)
        requires
            self@.wf(),
        ensures
            match r {
                Some(id) => self@.names_id(name@, id),
                None => !self@.names.contains(name@),
            },
    {
        let n = self.names.len();
        for k in 0..n
            invariant
                n == self@.names.len(),
                forall|i: int| 0 <= i < k ==> self@.names[i] != name@,
        {
            if self.names[k] == *name {
                return Some(k);
            }
        }
        None
    }

    /// Binds `name` to the matrix `m`. A square matrix or a number bound to
    /// that name before is dropped; a constant stays in its table. A new
    /// name gets the next id.
    pub fn add_matrix(&mut self, m: Matrix<T>, name: String)
        requires
            old(self)@.wf(),
        ensures
            final(self)@.wf(),
            final(self)@.names == if old(self)@.names.contains(name@) {
                old(self)@.names
            } else {
                old(self)@.names.push(name@)
            },
            forall|id: usize| #[trigger]
                final(self)@.names_id(name@, id) ==> {
                    let before = old(self)@;
                    let after = final(self)@;
                    &&& after.all_variables == before.all_variables.insert(
                        id,
                        SupportedTypes::Matrix,
                    )
                    &&& after.matrices == before.matrices.insert(id, m)
                    &&& after.square_matrices == before.square_matrices.remove(id)
                    &&& after.numbers == before.numbers.remove(id)
                    &&& after.constants == before.constants
                },
    {
        broadcast use vstd::std_specs::hash::group_hash_axioms;

        let ghost before = self@;
        let id = match self.find(&name) {
            Some(i) => i,
            None => {
                self.names.push(name.clone());
                proof {
                    assert(self@.names =~= before.names.push(name@));
                    assert forall|i: int, j: int|
                        0 <= i < j < self@.names.len() implies self@.names[i]
                        != self@.names[j] by {
                        if j == before.names.len() {
                            assert(before.names[i] == self@.names[i]);
                        }
                    }
                }
                self.names.len() - 1
            },
        };
        match self.all_variables.get(&id) {
            Some(var_type) => {
                match *var_type {
                    SupportedTypes::SquareMatrix => {
                        self.square_matrices.remove(&id);
                    },
                    SupportedTypes::Matrix => {
                        self.matrices.remove(&id);
                    },
                    SupportedTypes::Number => {
                        self.numbers.remove(&id);
                    },
                    SupportedTypes::Constant => {},
                }
            },
            None => {},
        }
        self.all_variables.insert(id, SupportedTypes::Matrix);
        self.matrices.insert(id, m);
        proof {
            assert(self@.matrices =~= before.matrices.insert(id, m));
            assert(self@.square_matrices =~= before.square_matrices.remove(id));
            assert(self@.numbers =~= before.numbers.remove(id));
            let after = self@;
            assert forall|k: usize| #[trigger]
                after.square_matrices.contains_key(k) <==> bound_as(
                    after.all_variables,
                    k,
                    SupportedTypes::SquareMatrix,
                ) by {
                if k != id {
                    assert(before.square_matrices.contains_key(k) <==> bound_as(
                        before.all_variables,
                        k,
                        SupportedTypes::SquareMatrix,
                    ));
                }
            }
            assert forall|k: usize| #[trigger]
                after.numbers.contains_key(k) <==> bound_as(
                    after.all_variables,
                    k,
                    SupportedTypes::Number,
                ) by {
                if k != id {
                    assert(before.numbers.contains_key(k) <==> bound_as(
                        before.all_variables,
                        k,
                        SupportedTypes::Number,
                    ));
                }
            }
            assert forall|k: usize| #[trigger]
                after.matrices.contains_key(k) <==> bound_as(
                    after.all_variables,
                    k,
                    SupportedTypes::Matrix,
                ) by {
                if k != id {
                    assert(before.matrices.contains_key(k) <==> bound_as(
                        before.all_variables,
                        k,
                        SupportedTypes::Matrix,
                    ));
                }
            }
            assert forall|k: usize| #[trigger] after.all_variables.contains_key(k) implies k
                < after.names.len() by {
                if k != id {
                    assert(before.all_variables.contains_key(k));
                }
            }
            assert forall|k: usize| #[trigger] after.constants.contains_key(k) implies k
                < after.names.len() by {
                assert(before.constants.contains_key(k));
            }
        }
    }

    /// The kind `name` is bound to, if it is bound.
    pub fn kind_of(&self, name: &String) -> (r: Option<SupportedTypes>)
        requires
            self@.wf(),
        ensures
            match r {
                Some(k) => exists|id: usize|
                    self@.names_id(name@, id) && bound_as(self@.all_variables, id, k),
                None => forall|id: usize|
                    self@.names_id(name@, id) ==> !self@.all_variables.contains_key(id),
            },
    {
        broadcast use vstd::std_specs::hash::group_hash_axioms;

        match self.find(name) {
            Some(id) => match self.all_variables.get(&id) {
                Some(k) => {
                    assert(self@.names_id(name@, id) && bound_as(self@.all_variables, id, *k));
                    Some(*k)
                },
                None => {
                    assert forall|j: usize| self@.names_id(name@, j) implies j == id by {
                        if j != id {
                            assert(self@.names[j as int] != self@.names[id as int]);
                        }
                    }
                    None
                },
            },
            None => None,
        }
    }

    /// The matrix bound to `name`, if there is one.
    pub fn matrix(&self, name: &String) -> (r: Option<&Matrix<T>>)
        requires
            self@.wf(),
        ensures
            match r {
                Some(m) => exists|id: usize|
                    self@.names_id(name@, id) && self@.matrices.contains_key(id)
                        && self@.matrices[id] == *m,
                None => forall|id: usize|
                    self@.names_id(name@, id) ==> !self@.matrices.contains_key(id),
            },
    {
        broadcast use vstd::std_specs::hash::group_hash_axioms;

        match self.find(name) {
            Some(id) => {
                let r = self.matrices.get(&id);
                proof {
                    assert forall|j: usize| self@.names_id(name@, j) implies j == id by {
                        if j != id {
                            assert(self@.names[j as int] != self@.names[id as int]);
                        }
                    }
                    if let Some(m) = r {
                        assert(self@.names_id(name@, id) && self@.matrices.contains_key(id)
                            && self@.matrices[id] == *m);
                    }
                }
                r
            },
            None => None,
        }
    }
}

} // verus!
