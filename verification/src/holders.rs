//! Values and the places that hold them: a greeter that cycles through its
//! messages, a value kept on the stack or on the heap, a deque brought into
//! canonical form without a copy where none is needed, and a cache that is
//! filled once.
use crate::text::decimal_u64;
use std::borrow::Cow;
use std::collections::VecDeque;
use std::ops::{Deref, DerefMut};
use vstd::prelude::*;
use vstd::string::*;

verus! {

/// A value that lives either in place or behind a box.
pub enum HeapOrStack<T> {
    Stack(T),
    Heap(Box<T>),
}

impl<T> View for HeapOrStack<T> {
    type V = T;

    /// The value held, wherever it lives.
    open spec fn view(&self) -> T {
        match self {
            HeapOrStack::Stack(v) => *v,
            HeapOrStack::Heap(b) => **b,
        }
    }
}

impl<T> Deref for HeapOrStack<T> {
    type Target = T;

    fn deref(&self) -> (value: &T)
        ensures
            *value == self@,
    {
        match self {
            HeapOrStack::Stack(v) => v,
            HeapOrStack::Heap(b) => b,
        }
    }
}

impl<T> DerefMut for HeapOrStack<T> {
    fn deref_mut(&mut self) -> (value: &mut T)
        ensures
            *value == old(self)@,
            final(self)@ == *final(value),
            (*final(self) is Stack) <==> (*old(self) is Stack),
    {
        match self {
            HeapOrStack::Stack(v) => v,
            HeapOrStack::Heap(b) => b,
        }
    }
}

/// The greeting at position `i` of the cycle.
pub open spec fn greeting(i: int) -> Seq<char> {
    if i == 0 {
        "Es lebe der Kaiser!"@
    } else if i == 1 {
        "M\u{f6}ge uns der Kaiser sch\u{fc}tzen!"@
    } else {
        "\u{c9}ljen Ferenc J\u{f3}zsef cs\u{e1}sz\u{e1}r!"@
    }
}

/// The words a greeter leaves with after `n` greetings.
pub open spec fn farewell(n: int) -> Seq<char> {
    "Ich habe "@ + crate::text::decimal(n) + " mal gegr\u{fc}\u{df}t"@
}

/// A greeter that goes through three greetings in a cycle and counts how
/// often it has greeted.
pub struct AustroHungarianGreeter {
    index: usize,
    n: u32,
}

impl AustroHungarianGreeter {
    /// The position in the cycle of the greeting that comes next.
    pub closed spec fn position(&self) -> int {
        self.index as int
    }

    /// How often the greeter has greeted.
    pub closed spec fn count(&self) -> int {
        self.n as int
    }

    #[verifier::type_invariant]
    spec fn in_cycle(&self) -> bool {
        self.index < 3
    }

    /// A greeter at the start of its cycle that has not greeted yet.
    pub fn new() -> (greeter: AustroHungarianGreeter)
        ensures
            greeter.position() == 0,
            greeter.count() == 0,
    {
        AustroHungarianGreeter { index: 0, n: 0 }
    }

    /// The next greeting of the cycle.
    pub fn greet(&mut self) -> (message: &'static str)
        requires
            old(self).count() < u32::MAX,
        ensures
            0 <= old(self).position() < 3,
            message@ == greeting(old(self).position()),
            final(self).position() == (old(self).position() + 1) % 3,
            final(self).count() == old(self).count() + 1,
    {
        proof {
            use_type_invariant(&*self);
        }
        let current_index = self.index;
        let message = if current_index == 0 {
            "Es lebe der Kaiser!"
        } else if current_index == 1 {
            "M\u{f6}ge uns der Kaiser sch\u{fc}tzen!"
        } else {
            "\u{c9}ljen Ferenc J\u{f3}zsef cs\u{e1}sz\u{e1}r!"
        };
        self.index = (current_index + 1) % 3;
        self.n += 1;
        message
    }

    /// How often the greeter has greeted.
    pub fn greetings(&self) -> (n: u32)
        ensures
            n == self.count(),
    {
        self.n
    }

    /// The words the greeter leaves with.
    pub fn parting_words(&self) -> (text: String)
        ensures
            text@ == farewell(self.count()),
    {
        let mut text = String::from_str("Ich habe ");
        let count = decimal_u64(self.n as u64);
        text.append(count.as_str());
        text.append(" mal gegr\u{fc}\u{df}t");
        text
    }
}

/// Whether `x` may stand at the head of a canonical deque: it leaves the
/// remainder one when divided by two, which no negative number does.
pub open spec fn leads(x: i32) -> bool {
    x > 0 && x % 2 == 1
}

/// Whether `i` is the position of the first element of `s` that may lead.
pub open spec fn first_leader(s: Seq<i32>, i: int) -> bool {
    &&& 0 <= i < s.len()
    &&& leads(s[i])
    &&& forall|k: int| 0 <= k < i ==> !leads(#[trigger] s[k])
}

/// `s` rotated to the left by `by` places.
pub open spec fn rotated(s: Seq<i32>, by: int) -> Seq<i32> {
    s.subrange(by, s.len() as int) + s.subrange(0, by)
}

/// The canonical form of `s`: `s` itself if it is empty, `s` rotated so that
/// its first leading element stands at the head if it has one, and none
/// otherwise.
pub open spec fn canonical(s: Seq<i32>) -> Option<Seq<i32>> {
    if s.len() == 0 {
        Some(s)
    } else if exists|i: int| first_leader(s, i) {
        Some(rotated(s, choose|i: int| first_leader(s, i)))
    } else {
        None
    }
}

/// Whether `x` may lead.
fn may_lead(x: i32) -> (answer: bool)
    ensures
        answer == leads(x),
{
    x > 0 && x % 2 == 1
}

/// The deque rotated so that its first leading element stands at the head.
/// An empty deque, or one whose head leads already, is handed back as it
/// is, borrowed; a deque without a leading element has no canonical form.
pub fn canon_head<'a>(xs: &'a VecDeque<i32>) -> (canon: Option<Cow<'a, VecDeque<i32>>>)
    ensures
        match canon {
            Some(c) => canonical(xs@) == Some(c@) && (c is Borrowed <==> xs@.len() == 0 || leads(
                xs@[0],
            )),
            None => canonical(xs@) is None,
        },
{
    if xs.len() == 0 {
        return Some(Cow::Borrowed(xs));
    }
    let mut ind: usize = 0;
    while ind < xs.len() && !may_lead(xs[ind])
        invariant
            ind <= xs@.len(),
            forall|k: int| 0 <= k < ind ==> !leads(#[trigger] xs@[k]),
        decreases xs@.len() - ind,
    {
        ind = ind + 1;
    }
    if ind == xs.len() {
        assert(forall|i: int| !first_leader(xs@, i));
        return None;
    }
    proof {
        assert(first_leader(xs@, ind as int));
        let chosen = choose|i: int| first_leader(xs@, i);
        assert(chosen == ind) by {
            if chosen < ind {
                assert(!leads(xs@[chosen]));
            } else if ind < chosen {
                assert(!leads(xs@[ind as int]));
            }
        }
    }
    if ind == 0 {
        assert(rotated(xs@, 0) =~= xs@);
        return Some(Cow::Borrowed(xs));
    }
    let mut owned = xs.clone();
    let mut moved: usize = 0;
    assert(owned@ =~= rotated(xs@, 0));
    while moved < ind
        invariant
            moved <= ind < xs@.len(),
            owned@ == rotated(xs@, moved as int),
        decreases ind - moved,
    {
        match owned.pop_front() {
            Some(x) => {
                owned.push_back(x);
            },
            None => {},
        }
        moved = moved + 1;
        assert(owned@ =~= rotated(xs@, moved as int));
    }
    Some(Cow::Owned(owned))
}

/// A text that is loaded at most once.
pub struct CachedFile {
    cache: Option<String>,
}

impl View for CachedFile {
    type V = Option<Seq<char>>;

    /// The text held, if any was stored.
    closed spec fn view(&self) -> Option<Seq<char>> {
        match self.cache {
            Some(text) => Some(text@),
            None => None,
        }
    }
}

impl CachedFile {
    /// An empty cache.
    pub fn new() -> (file: Self)
        ensures
            file@ is None,
    {
        Self { cache: None }
    }

    /// The text held, if any was stored.
    pub fn try_get(&self) -> (text: Option<&str>)
        ensures
            match text {
                Some(t) => self@ == Some(t@),
                None => self@ is None,
            },
    {
        match &self.cache {
            Some(s) => Some(s.as_str()),
            None => None,
        }
    }

    /// Stores `content` if nothing was stored before, and otherwise leaves
    /// the cache as it is. Says whether `content` was stored.
    pub fn fill(&mut self, content: String) -> (stored: bool)
        ensures
            stored == (old(self)@ is None),
            final(self)@ == if stored {
                Some(content@)
            } else {
                old(self)@
            },
    {
        if self.cache.is_none() {
            self.cache = Some(content);
            true
        } else {
            false
        }
    }
}

} // verus!
