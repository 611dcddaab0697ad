//! Processing elements of a platform.
use vstd::prelude::*;

use crate::result::Error;

verus! {

/// The type of a processing element.
#[derive(Clone, Copy, Debug, PartialEq, Eq, Structural)]
pub enum ElementKind {
    /// A central processing unit.
    Core,
    /// An L3 cache.
    L3,
}

/// The capacity of a processing element.
#[derive(Clone, Copy, Debug, PartialEq, Eq, Structural)]
pub enum ElementCapacity {
    /// Capable of hosting only one job at a time.
    Single,
    /// Capable of hosting as many jobs at a time as needed.
    Infinite,
}

/// A processing element of a platform.
#[derive(Clone, Copy, Debug, PartialEq, Eq, Structural)]
pub struct Element {
    /// The identifier, which is also the position of the element on its
    /// platform.
    pub id: usize,
    /// The type.
    pub kind: ElementKind,
    /// The area, in square micrometers.
    pub area: u64,
}

/// The capacity that an element of the given type has.
pub open spec fn capacity_of(kind: ElementKind) -> ElementCapacity {
    match kind {
        ElementKind::Core => ElementCapacity::Single,
        ElementKind::L3 => ElementCapacity::Infinite,
    }
}

/// The code of the lower-case form of an ASCII letter; other characters keep
/// their code.
pub open spec fn folded_code(c: char) -> u32 {
    if 'A' <= c && c <= 'Z' {
        ((c as u32) + 32) as u32
    } else {
        c as u32
    }
}

/// Whether `name` starts with `prefix`, a lower-case word, letter case
/// aside.
pub open spec fn starts_with_folded(name: Seq<char>, prefix: Seq<char>) -> bool {
    &&& prefix.len() <= name.len()
    &&& forall|i: int| 0 <= i < prefix.len() ==> folded_code(#[trigger] name[i]) == prefix[i] as u32
}

/// The type that an element's name gives, if any: a name that starts with
/// `core` names a core, one that starts with `l3` an L3 cache, letter case
/// aside.
pub open spec fn kind_named(name: Seq<char>) -> Option<ElementKind> {
    if starts_with_folded(name, seq!['c', 'o', 'r', 'e']) {
        Some(ElementKind::Core)
    } else if starts_with_folded(name, seq!['l', '3']) {
        Some(ElementKind::L3)
    } else {
        None
    }
}

impl Element {
    /// Create a processing element.
    pub fn new(id: usize, kind: ElementKind, area: u64) -> (r: Element)
        ensures
            r == (Element { id, kind, area }),
    {
        Element { id, kind, area }
    }

    /// Return the capacity of the processing element.
    pub fn capacity(&self) -> (r: ElementCapacity)
        ensures
            r == capacity_of(self.kind),
    {
        match self.kind {
            ElementKind::Core => ElementCapacity::Single,
            ElementKind::L3 => ElementCapacity::Infinite,
        }
    }
}

/// Whether `c` is `p`, letter case aside.
fn same_folded(c: char, p: char) -> (r: bool)
    ensures
        r == (folded_code(c) == p as u32),
{
    if 'A' <= c && c <= 'Z' {
        (c as u32) + 32 == p as u32
    } else {
        c as u32 == p as u32
    }
}

/// Whether `name` starts with `prefix`, letter case aside.
fn starts_with(name: &str, prefix: &str) -> (r: bool)
    ensures
        r == starts_with_folded(name@, prefix@),
{
    let count = prefix.unicode_len();
    if count > name.unicode_len() {
        return false;
    }
    let mut i: usize = 0;
    while i < count
        invariant
            count == prefix@.len(),
            count <= name@.len(),
            0 <= i <= count,
            forall|j: int| 0 <= j < i ==> folded_code(#[trigger] name@[j]) == prefix@[j] as u32,
        decreases count - i,
    {
        if !same_folded(name.get_char(i), prefix.get_char(i)) {
            return false;
        }
        i += 1;
    }
    true
}

impl ElementKind {
    /// Read the type of a processing element from its name.
    pub fn parse(name: &str) -> (r: Result<ElementKind, Error>)
        ensures
            match kind_named(name@) {
                Some(kind) => r == Ok::<ElementKind, Error>(kind),
                None => r is Err,
            },
    {
        proof {
            reveal_strlit("core");
            reveal_strlit("l3");
        }
        if starts_with(name, "core") {
            assert("core"@ =~= seq!['c', 'o', 'r', 'e']);
            Ok(ElementKind::Core)
        } else if starts_with(name, "l3") {
            assert("core"@ =~= seq!['c', 'o', 'r', 'e']);
            assert("l3"@ =~= seq!['l', '3']);
            Ok(ElementKind::L3)
        } else {
            assert("core"@ =~= seq!['c', 'o', 'r', 'e']);
            assert("l3"@ =~= seq!['l', '3']);
            Err(Error::new("found an unknown processing element"))
        }
    }
}

} // verus!
