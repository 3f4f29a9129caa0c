//! The token model: what may be stored in a chain, and the helpers that
//! compare and copy token slots.
//!
//! A slot is `Option<Token>`: `Some` holds a real token, `None` is the
//! sentinel that marks the start or end of a training sequence.

use vstd::prelude::*;

verus! {

/// The definition of all types that can be used in a `Chain`. A token must
/// expose equality and cloning that agree with its mathematical view.
pub trait Chainable: DeepView + Sized {
    /// Decides whether two tokens are equal, as their views compare.
    fn token_eq(&self, other: &Self) -> (r: bool)
        ensures
            r == (self.deep_view() == other.deep_view()),
    ;

    /// Copies a token; the copy has the same view as the original.
    fn token_clone(&self) -> (r: Self)
        ensures
            r.deep_view() == self.deep_view(),
    ;
}

impl Chainable for u8 {
    fn token_eq(&self, other: &Self) -> (r: bool)
        ensures
            r == (self.deep_view() == other.deep_view()),
    {
        *self == *other
    }

    fn token_clone(&self) -> (r: Self)
        ensures
            r.deep_view() == self.deep_view(),
    {
        *self
    }
}

impl Chainable for i32 {
    fn token_eq(&self, other: &Self) -> (r: bool)
        ensures
            r == (self.deep_view() == other.deep_view()),
    {
        *self == *other
    }

    fn token_clone(&self) -> (r: Self)
        ensures
            r.deep_view() == self.deep_view(),
    {
        *self
    }
}

impl Chainable for u64 {
    fn token_eq(&self, other: &Self) -> (r: bool)
        ensures
            r == (self.deep_view() == other.deep_view()),
    {
        *self == *other
    }

    fn token_clone(&self) -> (r: Self)
        ensures
            r.deep_view() == self.deep_view(),
    {
        *self
    }
}

impl Chainable for usize {
    fn token_eq(&self, other: &Self) -> (r: bool)
        ensures
            r == (self.deep_view() == other.deep_view()),
    {
        *self == *other
    }

    fn token_clone(&self) -> (r: Self)
        ensures
            r.deep_view() == self.deep_view(),
    {
        *self
    }
}

impl Chainable for String {
    fn token_eq(&self, other: &Self) -> (r: bool)
        ensures
            r == (self.deep_view() == other.deep_view()),
    {
        self.eq(other)
    }

    fn token_clone(&self) -> (r: Self)
        ensures
            r.deep_view() == self.deep_view(),
    {
        self.clone()
    }
}

/// Decides whether two token slots are equal, as their views compare.
pub fn slot_eq<T: Chainable>(a: &Option<T>, b: &Option<T>) -> (r: bool)
    ensures
        r == (a.deep_view() == b.deep_view()),
{
    match (a, b) {
        (None, None) => true,
        (Some(x), Some(y)) => x.token_eq(y),
        _ => false,
    }
}

/// Copies a token slot; the copy has the same view as the original.
pub fn slot_clone<T: Chainable>(s: &Option<T>) -> (r: Option<T>)
    ensures
        r.deep_view() == s.deep_view(),
{
    match s {
        None => None,
        Some(t) => Some(t.token_clone()),
    }
}

/// Decides whether two context keys are equal, as their views compare.
pub fn key_eq<T: Chainable>(a: &Vec<Option<T>>, b: &Vec<Option<T>>) -> (r: bool)
    ensures
        r == (a.deep_view() == b.deep_view()),
{
    if a.len() != b.len() {
        assert(a.deep_view().len() != b.deep_view().len());
        return false;
    }
    let mut i: usize = 0;
    while i < a.len()
        invariant
            i <= a.len(),
            a.len() == b.len(),
            forall|j: int| 0 <= j < i ==> a.deep_view()[j] == b.deep_view()[j],
        decreases a.len() - i,
    {
        if !slot_eq(&a[i], &b[i]) {
            assert(a.deep_view()[i as int] != b.deep_view()[i as int]);
            return false;
        }
        i += 1;
    }
    assert(a.deep_view() =~= b.deep_view());
    true
}

/// Copies a context key; the copy has the same view as the original.
pub fn key_clone<T: Chainable>(k: &Vec<Option<T>>) -> (r: Vec<Option<T>>)
    ensures
        r.deep_view() == k.deep_view(),
{
    let mut out: Vec<Option<T>> = Vec::new();
    let mut i: usize = 0;
    while i < k.len()
        invariant
            i <= k.len(),
            out.len() == i,
            forall|j: int| 0 <= j < i ==> out.deep_view()[j] == k.deep_view()[j],
        decreases k.len() - i,
    {
        out.push(slot_clone(&k[i]));
        i += 1;
    }
    assert(out.deep_view() =~= k.deep_view());
    out
}

} // verus!
