//! Named regions of the atlas and their order by name.

use crate::image::Rect;
use vstd::prelude::*;
use vstd::utf8::encode_utf8;

verus! {

broadcast use vstd::seq_lib::group_to_multiset_ensures;

/// A named rectangular region of the atlas image.
#[derive(Clone, Debug)]
pub struct Region {
    pub name: String,
    pub rect: Rect,
}

/// Lexicographic order on byte strings, a proper prefix coming first.
pub open spec fn bytes_lt(a: Seq<u8>, b: Seq<u8>) -> bool
    decreases a.len(),
{
    if a.len() == 0 {
        b.len() > 0
    } else if b.len() == 0 {
        false
    } else if a[0] != b[0] {
        a[0] < b[0]
    } else {
        bytes_lt(a.drop_first(), b.drop_first())
    }
}

/// The order of names: that of their UTF-8 bytes, as for `str`.
pub open spec fn name_lt(a: Seq<char>, b: Seq<char>) -> bool {
    bytes_lt(encode_utf8(a), encode_utf8(b))
}

/// No region comes after the next one in name order.
pub open spec fn sorted_by_name(rs: Seq<Region>) -> bool {
    forall|i: int| 0 < i < rs.len() ==> !name_lt(#[trigger] rs[i].name@, rs[i - 1].name@)
}

/// The byte order is asymmetric.
pub proof fn lemma_bytes_lt_asymmetric(a: Seq<u8>, b: Seq<u8>)
    ensures
        bytes_lt(a, b) ==> !bytes_lt(b, a),
    decreases a.len(),
{
    if a.len() > 0 && b.len() > 0 && a[0] == b[0] {
        lemma_bytes_lt_asymmetric(a.drop_first(), b.drop_first());
    }
}

/// The byte order is transitive.
pub proof fn lemma_bytes_lt_transitive(a: Seq<u8>, b: Seq<u8>, c: Seq<u8>)
    requires
        bytes_lt(a, b),
        bytes_lt(b, c),
    ensures
        bytes_lt(a, c),
    decreases a.len(),
{
    if a.len() > 0 && b.len() > 0 && c.len() > 0 && a[0] == b[0] && b[0] == c[0] {
        lemma_bytes_lt_transitive(a.drop_first(), b.drop_first(), c.drop_first());
    }
}

/// The byte order is total: of two different byte strings one comes first.
pub proof fn lemma_bytes_lt_total(a: Seq<u8>, b: Seq<u8>)
    ensures
        a == b || bytes_lt(a, b) || bytes_lt(b, a),
    decreases a.len(),
{
    if a.len() > 0 && b.len() > 0 && a[0] == b[0] {
        lemma_bytes_lt_total(a.drop_first(), b.drop_first());
        if a.drop_first() == b.drop_first() {
            assert(a =~= seq![a[0]] + a.drop_first());
            assert(b =~= seq![b[0]] + b.drop_first());
        }
    } else if a.len() == 0 && b.len() == 0 {
        assert(a =~= b);
    }
}

/// Position `k` holds the first region in name order: no region comes
/// before it, and every earlier position comes strictly after it.
pub open spec fn first_in_name_order(regions: Seq<Region>, k: int) -> bool {
    &&& 0 <= k < regions.len()
    &&& forall|j: int| 0 <= j < regions.len() ==> !name_lt(#[trigger] regions[j].name@, regions[k].name@)
    &&& forall|j: int| 0 <= j < k ==> name_lt(regions[k].name@, #[trigger] regions[j].name@)
}

/// At most one position is first in name order.
pub proof fn lemma_first_in_name_order_unique(regions: Seq<Region>, k1: int, k2: int)
    requires
        first_in_name_order(regions, k1),
        first_in_name_order(regions, k2),
    ensures
        k1 == k2,
{
    if k1 < k2 {
        assert(name_lt(regions[k2].name@, regions[k1].name@));
    } else if k2 < k1 {
        assert(name_lt(regions[k1].name@, regions[k2].name@));
    }
}

/// The position of the first region in name order, the earliest one among
/// equal names.
pub fn first_by_name(regions: &Vec<Region>) -> (k: usize)
    requires
        regions@.len() > 0,
    ensures
        first_in_name_order(regions@, k as int),
{
    let mut b: usize = 0;
    let mut i: usize = 1;
    proof {
        lemma_bytes_lt_asymmetric(encode_utf8(regions@[0].name@), encode_utf8(regions@[0].name@));
    }
    while i < regions.len()
        invariant
            1 <= i <= regions@.len(),
            b < i,
            forall|j: int| 0 <= j < i ==> !name_lt(#[trigger] regions@[j].name@, regions@[b as int].name@),
            forall|j: int| 0 <= j < b ==> name_lt(regions@[b as int].name@, #[trigger] regions@[j].name@),
        decreases regions@.len() - i,
    {
        if name_less(&regions[i].name, &regions[b].name) {
            proof {
                let x = encode_utf8(regions@[i as int].name@);
                let y = encode_utf8(regions@[b as int].name@);
                lemma_bytes_lt_asymmetric(x, x);
                assert forall|j: int| 0 <= j < i + 1 implies !name_lt(
                    #[trigger] regions@[j].name@,
                    regions@[i as int].name@,
                ) by {
                    if j < i && name_lt(regions@[j].name@, regions@[i as int].name@) {
                        lemma_bytes_lt_transitive(encode_utf8(regions@[j].name@), x, y);
                    }
                }
                assert forall|j: int| 0 <= j < i implies name_lt(
                    regions@[i as int].name@,
                    #[trigger] regions@[j].name@,
                ) by {
                    let z = encode_utf8(regions@[j].name@);
                    lemma_bytes_lt_total(z, y);
                    if bytes_lt(y, z) {
                        lemma_bytes_lt_transitive(x, y, z);
                    }
                }
            }
            b = i;
        }
        i = i + 1;
    }
    b
}

/// Whether name `a` comes strictly before name `b`.
pub fn name_less(a: &String, b: &String) -> (r: bool)
    ensures
        r == name_lt(a@, b@),
{
    let x = a.as_str().as_bytes();
    let y = b.as_str().as_bytes();
    assert(x@.skip(0) =~= x@ && y@.skip(0) =~= y@);
    let mut k: usize = 0;
    while k < x.len() && k < y.len() && x[k] == y[k]
        invariant
            k <= x@.len(),
            k <= y@.len(),
            name_lt(a@, b@) == bytes_lt(x@.skip(k as int), y@.skip(k as int)),
        decreases x@.len() - k,
    {
        assert(x@.skip(k as int).drop_first() =~= x@.skip(k + 1));
        assert(y@.skip(k as int).drop_first() =~= y@.skip(k + 1));
        k = k + 1;
    }
    if k == x.len() {
        k < y.len()
    } else if k == y.len() {
        false
    } else {
        x[k] < y[k]
    }
}

/// A copy of `r`.
fn copy_region(r: &Region) -> (c: Region)
    ensures
        c == *r,
{
    Region { name: r.name.clone(), rect: r.rect }
}

/// The regions in name order, equal names keeping their order (a stable
/// insertion sort).
pub fn sort_by_name(items: &Vec<Region>) -> (r: Vec<Region>)
    ensures
        r@.to_multiset() == items@.to_multiset(),
        sorted_by_name(r@),
{
    let mut sorted: Vec<Region> = Vec::new();
    let mut i: usize = 0;
    while i < items.len()
        invariant
            i <= items@.len(),
            sorted@.to_multiset() == items@.subrange(0, i as int).to_multiset(),
            sorted_by_name(sorted@),
        decreases items@.len() - i,
    {
        let x = copy_region(&items[i]);
        let mut p: usize = 0;
        while p < sorted.len() && !name_less(&x.name, &sorted[p].name)
            invariant
                p <= sorted@.len(),
                forall|k: int| 0 <= k < p ==> !name_lt(x.name@, #[trigger] sorted@[k].name@),
            decreases sorted@.len() - p,
        {
            p = p + 1;
        }
        let ghost before = sorted@;
        proof {
            if p < before.len() {
                lemma_bytes_lt_asymmetric(encode_utf8(x.name@), encode_utf8(before[p as int].name@));
            }
        }
        sorted.insert(p, x);
        proof {
            assert(items@.subrange(0, i + 1) =~= items@.subrange(0, i as int).push(items@[i as int]));
            assert forall|j: int| 0 < j < sorted@.len() implies !name_lt(
                #[trigger] sorted@[j].name@,
                sorted@[j - 1].name@,
            ) by {
                if j < p {
                    assert(sorted@[j] == before[j] && sorted@[j - 1] == before[j - 1]);
                } else if j == p {
                } else if j == p + 1 {
                } else {
                    assert(sorted@[j] == before[j - 1] && sorted@[j - 1] == before[j - 2]);
                }
            }
        }
        i = i + 1;
    }
    assert(items@.subrange(0, items@.len() as int) =~= items@);
    sorted
}

} // verus!
