//! Constraints read back from the keys under which they are stored.
use crate::text::{self, chars_of, slice_text, split_text};
use vstd::prelude::*;

verus! {

/// A constraint in a store.
#[derive(Debug, PartialEq)]
pub enum StoredConstraint {
    Unique(String, String),
    NotNull(String, String),
    NodeKey(String, Vec<String>),
    PropertyType(String, String, String),
}

/// The view of a `StoredConstraint`.
pub enum StoredV {
    Unique(Seq<char>, Seq<char>),
    NotNull(Seq<char>, Seq<char>),
    NodeKey(Seq<char>, Seq<Seq<char>>),
    PropertyType(Seq<char>, Seq<char>, Seq<char>),
}

impl StoredConstraint {
    pub open spec fn view(&self) -> StoredV {
        match self {
            StoredConstraint::Unique(l, p) => StoredV::Unique(l@, p@),
            StoredConstraint::NotNull(l, p) => StoredV::NotNull(l@, p@),
            StoredConstraint::NodeKey(l, ps) => StoredV::NodeKey(l@, text::texts_view(ps@)),
            StoredConstraint::PropertyType(l, p, k) => StoredV::PropertyType(l@, p@, k@),
        }
    }
}

/// The first NUL from a position on.
pub open spec fn nul_from(s: Seq<char>, i: int) -> Option<int>
    decreases s.len() - i,
{
    if i < 0 || i >= s.len() {
        None
    } else if s[i] == '\0' {
        Some(i)
    } else {
        nul_from(s, i + 1)
    }
}

/// The parts of a text before and behind its first NUL, if it has one.
pub open spec fn cut(s: Seq<char>) -> Option<(Seq<char>, Seq<char>)> {
    match nul_from(s, 0) {
        Some(i) => Some((s.take(i), s.skip(i + 1))),
        None => None,
    }
}

/// The constraint whose key is a text. A key that begins with the character 1
/// goes on with two letters for the kind of the constraint and a NUL.
pub open spec fn constraint_of(s: Seq<char>) -> Option<StoredV> {
    if s.len() > 0 && s[0] == '\u{1}' {
        if s.len() < 4 || s[3] != '\0' {
            None
        } else {
            match cut(s.skip(4)) {
                None => None,
                Some((label, rest)) => if s[1] == 'N' && s[2] == 'N' {
                    Some(StoredV::NotNull(label, rest))
                } else if s[1] == 'N' && s[2] == 'K' {
                    Some(StoredV::NodeKey(label, text::split_pieces(rest, ","@)))
                } else if s[1] == 'P' && s[2] == 'T' {
                    match cut(rest) {
                        Some((p, kind)) => Some(StoredV::PropertyType(label, p, kind)),
                        None => None,
                    }
                } else {
                    None
                },
            }
        }
    } else {
        match cut(s) {
            Some((label, p)) => Some(StoredV::Unique(label, p)),
            None => None,
        }
    }
}

fn cut_text(v: &Vec<char>, from: usize) -> (r: Option<(String, String)>)
    requires
        from <= v.len(),
    ensures
        match r {
            Some((a, b)) => cut(v@.skip(from as int)) == Some((a@, b@)),
            None => cut(v@.skip(from as int)) is None,
        },
{
    let ghost s = v@.skip(from as int);
    let mut i: usize = from;
    while i < v.len()
        invariant
            from <= i <= v.len(),
            s == v@.skip(from as int),
            nul_from(s, 0) == nul_from(s, i - from),
        decreases v.len() - i,
    {
        proof {
            assert(s[i - from] == v@[i as int]);
        }
        if v[i] == '\0' {
            proof {
                assert(s.take(i - from) =~= v@.subrange(from as int, i as int));
                assert(s.skip(i - from + 1) =~= v@.subrange(i + 1, v@.len() as int));
            }
            return Some((slice_text(v, from, i), slice_text(v, i + 1, v.len())));
        }
        i += 1;
    }
    None
}

/// Reads the constraint whose key is a text.
pub fn read_constraint(key: &str) -> (r: Option<StoredConstraint>)
    ensures
        match r {
            Some(c) => constraint_of(key@) == Some(c@),
            None => constraint_of(key@) is None,
        },
{
    let v = chars_of(key);
    if v.len() > 0 && v[0] == '\u{1}' {
        if v.len() < 4 || v[3] != '\0' {
            return None;
        }
        let (label, rest) = match cut_text(&v, 4) {
            Some(p) => p,
            None => {
                return None;
            },
        };
        if v[1] == 'N' && v[2] == 'N' {
            Some(StoredConstraint::NotNull(label, rest))
        } else if v[1] == 'N' && v[2] == 'K' {
            Some(StoredConstraint::NodeKey(label, split_text(rest.as_str(), ",")))
        } else if v[1] == 'P' && v[2] == 'T' {
            let tail = chars_of(rest.as_str());
            proof {
                assert(tail@.skip(0) =~= rest@);
            }
            match cut_text(&tail, 0) {
                Some((p, kind)) => Some(StoredConstraint::PropertyType(label, p, kind)),
                None => None,
            }
        } else {
            None
        }
    } else {
        proof {
            assert(v@.skip(0) =~= key@);
        }
        match cut_text(&v, 0) {
            Some((label, p)) => Some(StoredConstraint::Unique(label, p)),
            None => None,
        }
    }
}

/// A text without a NUL.
pub open spec fn without_nul(s: Seq<char>) -> bool {
    forall|i: int| 0 <= i < s.len() ==> s[i] != '\0'
}

proof fn lemma_nul_behind(a: Seq<char>, b: Seq<char>, i: int)
    requires
        without_nul(a),
        0 <= i <= a.len(),
    ensures
        nul_from(a.push('\0') + b, i) == Some(a.len() as int),
    decreases a.len() - i,
{
    let s = a.push('\0') + b;
    if i < a.len() {
        assert(s[i] == a[i]);
        lemma_nul_behind(a, b, i + 1);
    } else {
        assert(s[i] == '\0');
    }
}

proof fn lemma_cut(a: Seq<char>, b: Seq<char>)
    requires
        without_nul(a),
    ensures
        cut(a.push('\0') + b) == Some((a, b)),
{
    lemma_nul_behind(a, b, 0);
    let s = a.push('\0') + b;
    assert(s.take(a.len() as int) =~= a);
    assert(s.skip(a.len() as int + 1) =~= b);
}

/// The text whose bytes are the key of a constraint: NODE KEY with its
/// properties behind each other.
pub open spec fn key_text(c: StoredV) -> Seq<char> {
    match c {
        StoredV::Unique(l, p) => l.push('\0') + p,
        StoredV::NotNull(l, p) => seq!['\u{1}', 'N', 'N', '\0'] + (l.push('\0') + p),
        StoredV::NodeKey(l, ps) => seq!['\u{1}', 'N', 'K', '\0'] + (l.push('\0') + text::joined(
            ps,
            ","@,
        )),
        StoredV::PropertyType(l, p, k) => seq!['\u{1}', 'P', 'T', '\0'] + (l.push('\0') + (p.push(
            '\0',
        ) + k)),
    }
}

/// A constraint is read back from the text of its key, where its label, and
/// for a PROPERTY TYPE its property, has no NUL. A unique constraint must not
/// have a label that begins with the character 1. Of a NODE KEY the properties
/// come back as the commas between them cut the text.
pub proof fn lemma_constraint_read_back(c: StoredV)
    requires
        match c {
            StoredV::Unique(l, p) => without_nul(l) && (l.len() > 0 ==> l[0] != '\u{1}'),
            StoredV::NotNull(l, p) => without_nul(l),
            StoredV::NodeKey(l, ps) => without_nul(l),
            StoredV::PropertyType(l, p, k) => without_nul(l) && without_nul(p),
        },
    ensures
        constraint_of(key_text(c)) == Some(
            match c {
                StoredV::NodeKey(l, ps) => StoredV::NodeKey(
                    l,
                    text::split_pieces(text::joined(ps, ","@), ","@),
                ),
                _ => c,
            },
        ),
{
    let s = key_text(c);
    match c {
        StoredV::Unique(l, p) => {
            lemma_cut(l, p);
            assert(s[0] == l.push('\0')[0]);
        },
        StoredV::NotNull(l, p) => {
            lemma_cut(l, p);
            assert(s.skip(4) =~= l.push('\0') + p);
        },
        StoredV::NodeKey(l, ps) => {
            lemma_cut(l, text::joined(ps, ","@));
            assert(s.skip(4) =~= l.push('\0') + text::joined(ps, ","@));
        },
        StoredV::PropertyType(l, p, k) => {
            lemma_cut(l, p.push('\0') + k);
            lemma_cut(p, k);
            assert(s.skip(4) =~= l.push('\0') + (p.push('\0') + k));
        },
    }
}

} // verus!
