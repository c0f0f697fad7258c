//! Extended attributes.

use std::cmp::Ordering;

use vstd::prelude::*;
use vstd::slice::slice_subrange;

use crate::util::{bytes_eq, extend};

verus! {

/// An extended attribute. Attributes compare by their names alone.
#[derive(Debug, Eq)]
pub struct XAttr {
    data: Vec<u8>,
    name_len: usize,
}

/// The name and the value of an extended attribute.
pub struct XAttrView {
    pub name: Seq<u8>,
    pub value: Seq<u8>,
}

impl XAttrView {
    /// The name, a zero, the value.
    pub open spec fn data(self) -> Seq<u8> {
        self.name + seq![0u8] + self.value
    }
}

/// The position of the first zero.
pub open spec fn first_zero(data: Seq<u8>) -> nat
    decreases data.len(),
{
    if data.len() == 0 || data[0] == 0 {
        0
    } else {
        1 + first_zero(data.skip(1))
    }
}

/// The attribute with the given data, if that has a zero between a name and a value.
pub open spec fn xattr_of(data: Seq<u8>) -> Option<XAttrView> {
    if data.contains(0) {
        Some(
            XAttrView {
                name: data.take(first_zero(data) as int),
                value: data.skip(first_zero(data) as int + 1),
            },
        )
    } else {
        None
    }
}

pub proof fn lemma_first_zero(data: Seq<u8>)
    ensures
        first_zero(data) <= data.len(),
        forall|i: int| 0 <= i < first_zero(data) ==> data[i] != 0,
        first_zero(data) < data.len() ==> data[first_zero(data) as int] == 0,
        data.contains(0) <==> first_zero(data) < data.len(),
    decreases data.len(),
{
    if data.len() == 0 || data[0] == 0 {
    } else {
        let rest = data.skip(1);
        lemma_first_zero(rest);
        assert forall|i: int| 0 <= i < first_zero(data) implies data[i] != 0 by {
            if i > 0 {
                assert(rest[i - 1] == data[i]);
            }
        }
        if first_zero(data) < data.len() {
            assert(rest[first_zero(rest) as int] == data[first_zero(data) as int]);
        }
    }
}

/// An attribute whose name holds no zero is read from its data as it was.
pub proof fn lemma_xattr_round_trip(x: XAttrView)
    requires
        !x.name.contains(0),
    ensures
        xattr_of(x.data()) == Some(x),
{
    let data = x.data();
    lemma_first_zero(data);
    assert(data[x.name.len() as int] == 0);
    let n = first_zero(data);
    if n < x.name.len() {
        assert(x.name[n as int] == data[n as int]);
        assert(x.name.contains(0));
    }
    assert(data.take(n as int) =~= x.name);
    assert(data.skip(n as int + 1) =~= x.value);
}

impl XAttr {
    #[verifier::type_invariant]
    spec fn well_formed(self) -> bool {
        self.name_len < self.data@.len() && self.data@[self.name_len as int] == 0
    }

    pub closed spec fn view(self) -> XAttrView {
        XAttrView {
            name: self.data@.take(self.name_len as int),
            value: self.data@.skip(self.name_len + 1),
        }
    }

    pub fn new(name: &[u8], value: &[u8]) -> (r: Self)
        ensures
            r@ == (XAttrView { name: name@, value: value@ }),
    {
        let mut data: Vec<u8> = Vec::new();
        extend(&mut data, name);
        data.push(0);
        extend(&mut data, value);
        proof {
            assert(data@.take(name@.len() as int) =~= name@);
            assert(data@.skip(name@.len() as int + 1) =~= value@);
        }
        XAttr { data, name_len: name.len() }
    }

    /// Split the data of an attribute at the first zero.
    pub fn from_data(data: Vec<u8>) -> (r: Option<Self>)
        ensures
            match r {
                Some(x) => xattr_of(data@) == Some(x@),
                None => xattr_of(data@) is None,
            },
    {
        let mut i: usize = 0;
        proof {
            assert(data@.skip(0) =~= data@);
            lemma_first_zero(data@);
        }
        while i < data.len() && data[i] != 0
            invariant
                i <= data@.len(),
                i + first_zero(data@.skip(i as int)) == first_zero(data@),
            decreases data@.len() - i,
        {
            proof {
                assert(data@.skip(i as int).skip(1) =~= data@.skip(i + 1));
            }
            i = i + 1;
        }
        if i < data.len() {
            Some(XAttr { data, name_len: i })
        } else {
            None
        }
    }

    /// Get the name.
    pub fn name(&self) -> (r: &[u8])
        ensures
            r@ == self@.name,
    {
        proof {
            use_type_invariant(self);
        }
        slice_subrange(self.data.as_slice(), 0, self.name_len)
    }

    /// Get the value.
    pub fn value(&self) -> (r: &[u8])
        ensures
            r@ == self@.value,
    {
        proof {
            use_type_invariant(self);
        }
        let len: usize = self.data.len();
        slice_subrange(self.data.as_slice(), self.name_len + 1, len)
    }

    /// Get the name, a zero and the value.
    pub fn data(&self) -> (r: &[u8])
        ensures
            r@ == self@.data(),
    {
        proof {
            use_type_invariant(self);
            assert(self.data@ =~= self@.data());
        }
        self.data.as_slice()
    }
}

impl Clone for XAttr {
    fn clone(&self) -> (r: Self)
        ensures
            r@ == self@,
    {
        XAttr::new(self.name(), self.value())
    }
}

/// What is left of a byte string from some position on.
spec fn from_position(s: Seq<u8>, at: usize) -> Seq<u8> {
    s.skip(at as int)
}

proof fn lemma_from_position(s: Seq<u8>, at: usize)
    requires
        at < s.len(),
    ensures
        from_position(s, at).len() > 0,
        from_position(s, at)[0] == s[at as int],
        at + 1 <= usize::MAX ==> from_position(s, at).skip(1) == from_position(
            s,
            (at + 1) as usize,
        ),
{
    if at + 1 <= usize::MAX {
        assert(from_position(s, at).skip(1) =~= from_position(s, (at + 1) as usize));
    }
}

proof fn lemma_from_start(s: Seq<u8>)
    ensures
        from_position(s, 0) == s,
{
    assert(from_position(s, 0) =~= s);
}

/// Byte strings are ordered as in a dictionary.
pub open spec fn byte_order(a: Seq<u8>, b: Seq<u8>) -> Ordering
    decreases a.len(),
{
    if a.len() == 0 {
        if b.len() == 0 {
            Ordering::Equal
        } else {
            Ordering::Less
        }
    } else if b.len() == 0 {
        Ordering::Greater
    } else if a[0] < b[0] {
        Ordering::Less
    } else if a[0] > b[0] {
        Ordering::Greater
    } else {
        byte_order(a.skip(1), b.skip(1))
    }
}

/// Compare two byte strings.
fn order_bytes(a: &[u8], b: &[u8]) -> (r: Ordering)
    ensures
        r == byte_order(a@, b@),
{
    let mut i: usize = 0;
    proof {
        lemma_from_start(a@);
        lemma_from_start(b@);
    }
    while i < a.len() && i < b.len()
        invariant
            i <= a@.len(),
            i <= b@.len(),
            byte_order(from_position(a@, i), from_position(b@, i)) == byte_order(a@, b@),
        decreases a@.len() - i,
    {
        let x: u8 = a[i];
        let y: u8 = b[i];
        proof {
            lemma_from_position(a@, i);
            lemma_from_position(b@, i);
        }
        if x < y {
            return Ordering::Less;
        }
        if x > y {
            return Ordering::Greater;
        }
        i = i + 1;
    }
    if i < a.len() {
        proof {
            lemma_from_position(a@, i);
        }
        Ordering::Greater
    } else if i < b.len() {
        proof {
            lemma_from_position(b@, i);
        }
        Ordering::Less
    } else {
        Ordering::Equal
    }
}

impl PartialEq for XAttr {
    fn eq(&self, other: &XAttr) -> (r: bool) {
        bytes_eq(self.name(), other.name())
    }
}

impl vstd::std_specs::cmp::PartialEqSpecImpl for XAttr {
    open spec fn obeys_eq_spec() -> bool {
        true
    }

    open spec fn eq_spec(&self, other: &XAttr) -> bool {
        self@.name == other@.name
    }
}

impl PartialOrd for XAttr {
    fn partial_cmp(&self, other: &XAttr) -> (r: Option<Ordering>) {
        Some(order_bytes(self.name(), other.name()))
    }
}

impl vstd::std_specs::cmp::PartialOrdSpecImpl for XAttr {
    open spec fn obeys_partial_cmp_spec() -> bool {
        true
    }

    open spec fn partial_cmp_spec(&self, other: &XAttr) -> Option<Ordering> {
        Some(byte_order(self@.name, other@.name))
    }
}

/// The data of an attribute is split at its first zero and nothing of it is lost: put together
/// again it is the same, and the name holds no zero. Data without a zero is no attribute.
pub proof fn law_attribute_data(data: Seq<u8>)
    ensures
        xattr_of(data) is Some <==> exists|i: int| 0 <= i < data.len() && data[i] == 0,
        xattr_of(data) matches Some(x) ==> {
            &&& x.name + seq![0u8] + x.value == data
            &&& x.data() == data
            &&& !x.name.contains(0)
        },
{
    lemma_first_zero(data);
    if let Some(x) = xattr_of(data) {
        assert(x.name + seq![0u8] + x.value =~= data);
    }
}

/// Byte strings are ordered by the first byte in which they differ, and one that goes on where
/// another ends comes after it.
pub proof fn law_byte_order(a: Seq<u8>, b: Seq<u8>, k: int)
    requires
        0 <= k <= a.len(),
        k <= b.len(),
        forall|i: int| 0 <= i < k ==> a[i] == b[i],
    ensures
        byte_order(a, b) == Ordering::Equal <==> a == b,
        byte_order(a, b) == Ordering::Less <==> byte_order(b, a) == Ordering::Greater,
        k < a.len() && k < b.len() && a[k] < b[k] ==> byte_order(a, b) == Ordering::Less,
        k < a.len() && k < b.len() && a[k] > b[k] ==> byte_order(a, b) == Ordering::Greater,
        k == a.len() && k < b.len() ==> byte_order(a, b) == Ordering::Less,
        k == b.len() && k < a.len() ==> byte_order(a, b) == Ordering::Greater,
    decreases a.len(), k,
{
    if a.len() > 0 && b.len() > 0 && a[0] == b[0] {
        let x = a.skip(1);
        let y = b.skip(1);
        if k > 0 {
            assert forall|i: int| 0 <= i < k - 1 implies x[i] == y[i] by {
                assert(a[i + 1] == b[i + 1]);
            }
            law_byte_order(x, y, k - 1);
        } else {
            law_byte_order(x, y, 0);
        }
        if x == y {
            assert(a =~= seq![a[0]] + x);
            assert(b =~= seq![b[0]] + y);
        }
    } else if a.len() == 0 && b.len() == 0 {
        assert(a =~= b);
    }
}

} // verus!
