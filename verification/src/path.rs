//! Paths as component sequences, and the reconciliation of an incoming
//! payload's origin path with the receiver's destination root.

use vstd::prelude::*;

verus! {

/// A filesystem path, modelled as the sequence of its components.  Each
/// component is an uninterpreted byte string; the surrounding process converts
/// between this and its platform's native path type.
#[derive(Debug, PartialEq)]
pub struct FilePath {
    pub components: Vec<Vec<u8>>,
}

impl View for FilePath {
    type V = Seq<Seq<u8>>;

    open spec fn view(&self) -> Seq<Seq<u8>> {
        self.components.deep_view()
    }
}

impl DeepView for FilePath {
    type V = Seq<Seq<u8>>;

    open spec fn deep_view(&self) -> Seq<Seq<u8>> {
        self.view()
    }
}

/// A byte vector's deep view is its plain view.
pub broadcast proof fn lemma_bytes_deep_view(v: Vec<u8>)
    ensures
        #[trigger] v.deep_view() == v@,
{
    assert(v.deep_view() =~= v@);
}

/// A component vector's deep view indexes to the components' own views.
pub broadcast proof fn lemma_components_view_index(v: Vec<Vec<u8>>, i: int)
    requires
        0 <= i < v@.len(),
    ensures
        #[trigger] v.deep_view()[i] == v@[i]@,
{
    assert(v.deep_view()[i] == v@[i].deep_view());
    lemma_bytes_deep_view(v@[i]);
}

/// A component vector whose entries hold the bytes of `s`'s entries has `s`
/// as its deep view.
pub proof fn lemma_components_view_is(v: Vec<Vec<u8>>, s: Seq<Seq<u8>>)
    requires
        v@.len() == s.len(),
        forall|i: int| 0 <= i < s.len() ==> v@[i]@ == s[i],
    ensures
        v.deep_view() == s,
{
    assert forall|i: int| 0 <= i < s.len() implies v.deep_view()[i] == s[i] by {
        lemma_components_view_index(v, i);
    }
    assert(v.deep_view() =~= s);
}

/// Whether two byte vectors hold the same bytes.
pub fn bytes_eq(a: &Vec<u8>, b: &Vec<u8>) -> (r: bool)
    ensures
        r <==> a@ == b@,
{
    if a.len() != b.len() {
        return false;
    }
    let mut i: usize = 0;
    while i < a.len()
        invariant
            i <= a.len(),
            a.len() == b.len(),
            forall|j: int| 0 <= j < i ==> a@[j] == b@[j],
        decreases a.len() - i,
    {
        if a[i] != b[i] {
            return false;
        }
        i = i + 1;
    }
    proof {
        assert(a@ =~= b@);
    }
    true
}

/// A fresh byte vector holding the same bytes.
pub fn copy_bytes(v: &Vec<u8>) -> (r: Vec<u8>)
    ensures
        r@ == v@,
{
    let mut r: Vec<u8> = Vec::new();
    let mut i: usize = 0;
    while i < v.len()
        invariant
            i <= v.len(),
            r@ == v@.take(i as int),
        decreases v.len() - i,
    {
        r.push(v[i]);
        proof {
            assert(r@ =~= v@.take(i + 1));
        }
        i = i + 1;
    }
    proof {
        assert(r@ =~= v@);
    }
    r
}

/// A fresh path holding the same components.
pub fn copy_path(p: &FilePath) -> (r: FilePath)
    ensures
        r@ == p@,
{
    let mut components: Vec<Vec<u8>> = Vec::new();
    let mut i: usize = 0;
    while i < p.components.len()
        invariant
            i <= p.components.len(),
            components@.len() == i,
            forall|j: int| 0 <= j < i ==> components@[j]@ == p.components@[j]@,
        decreases p.components.len() - i,
    {
        let c = copy_bytes(&p.components[i]);
        components.push(c);
        i = i + 1;
    }
    proof {
        assert forall|j: int| 0 <= j < p@.len() implies components@[j]@ == p@[j] by {
            lemma_components_view_index(p.components, j);
        }
        lemma_components_view_is(components, p@);
    }
    FilePath { components }
}

/// The number of leading components shared by `a` and `b`.
pub open spec fn common_prefix_len(a: Seq<Seq<u8>>, b: Seq<Seq<u8>>) -> int
    decreases a.len(),
{
    if a.len() == 0 || b.len() == 0 || a[0] != b[0] {
        0
    } else {
        1 + common_prefix_len(a.skip(1), b.skip(1))
    }
}

pub proof fn lemma_common_prefix_len_bounds(a: Seq<Seq<u8>>, b: Seq<Seq<u8>>)
    ensures
        0 <= common_prefix_len(a, b),
        common_prefix_len(a, b) <= a.len(),
        common_prefix_len(a, b) <= b.len(),
        forall|i: int| 0 <= i < common_prefix_len(a, b) ==> a[i] == b[i],
    decreases a.len(),
{
    if a.len() == 0 || b.len() == 0 || a[0] != b[0] {
    } else {
        lemma_common_prefix_len_bounds(a.skip(1), b.skip(1));
        assert forall|i: int| 0 <= i < common_prefix_len(a, b) implies a[i] == b[i] by {
            if i > 0 {
                assert(a.skip(1)[i - 1] == b.skip(1)[i - 1]);
            }
        }
    }
}

/// `common_prefix_len` is the unique `n` with equal components before `n`
/// and, unless one path is exhausted, a mismatch at `n`.
pub proof fn lemma_common_prefix_len_is(a: Seq<Seq<u8>>, b: Seq<Seq<u8>>, n: int)
    requires
        0 <= n <= a.len(),
        n <= b.len(),
        forall|i: int| 0 <= i < n ==> a[i] == b[i],
        n == a.len() || n == b.len() || a[n] != b[n],
    ensures
        common_prefix_len(a, b) == n,
    decreases a.len(),
{
    if n == 0 {
        if a.len() != 0 && b.len() != 0 {
            assert(a[0] != b[0]);
        }
    } else {
        assert(a[0] == b[0]);
        let a1 = a.skip(1);
        let b1 = b.skip(1);
        assert forall|i: int| 0 <= i < n - 1 implies a1[i] == b1[i] by {
            assert(a[i + 1] == b[i + 1]);
        }
        if n - 1 < a1.len() && n - 1 < b1.len() {
            assert(a1[n - 1] == a[n]);
            assert(b1[n - 1] == b[n]);
        }
        lemma_common_prefix_len_is(a1, b1, n - 1);
    }
}

/// The longest shared prefix of `a` and `b`, together with the remainder of
/// `a` after that prefix.
pub fn find_common_prefix(a: &FilePath, b: &FilePath) -> (r: (FilePath, FilePath))
    ensures
        r.0@ == a@.take(common_prefix_len(a@, b@)),
        r.1@ == a@.skip(common_prefix_len(a@, b@)),
{
    let alen = a.components.len();
    let blen = b.components.len();
    proof {
        assert(alen == a@.len());
        assert(blen == b@.len());
    }
    let mut n: usize = 0;
    loop
        invariant
            n <= alen,
            n <= blen,
            alen == a.components.len(),
            blen == b.components.len(),
            alen == a@.len(),
            blen == b@.len(),
            forall|j: int| 0 <= j < n ==> a@[j] == b@[j],
        ensures
            n <= alen,
            n <= blen,
            forall|j: int| 0 <= j < n ==> a@[j] == b@[j],
            n == alen || n == blen || a@[n as int] != b@[n as int],
        decreases alen - n,
    {
        if n >= alen || n >= blen {
            break;
        }
        let same = bytes_eq(&a.components[n], &b.components[n]);
        proof {
            lemma_components_view_index(a.components, n as int);
            lemma_components_view_index(b.components, n as int);
        }
        if !same {
            break;
        }
        n = n + 1;
    }
    proof {
        lemma_common_prefix_len_is(a@, b@, n as int);
    }
    let mut prefix: Vec<Vec<u8>> = Vec::new();
    let mut i: usize = 0;
    while i < n
        invariant
            i <= n,
            n <= a.components.len(),
            prefix@.len() == i,
            forall|j: int| 0 <= j < i ==> prefix@[j]@ == a.components@[j]@,
        decreases n - i,
    {
        let c = copy_bytes(&a.components[i]);
        prefix.push(c);
        i = i + 1;
    }
    let mut rest: Vec<Vec<u8>> = Vec::new();
    let mut j: usize = n;
    while j < alen
        invariant
            n <= j <= alen,
            alen == a.components.len(),
            rest@.len() == j - n,
            forall|k: int| 0 <= k < j - n ==> rest@[k]@ == a.components@[n + k]@,
        decreases alen - j,
    {
        let c = copy_bytes(&a.components[j]);
        rest.push(c);
        j = j + 1;
    }
    proof {
        assert forall|k: int| 0 <= k < n implies prefix@[k]@ == a@.take(n as int)[k] by {
            lemma_components_view_index(a.components, k);
        }
        lemma_components_view_is(prefix, a@.take(n as int));
        assert forall|k: int| 0 <= k < alen - n implies rest@[k]@ == a@.skip(n as int)[k] by {
            lemma_components_view_index(a.components, n + k);
        }
        lemma_components_view_is(rest, a@.skip(n as int));
    }
    (FilePath { components: prefix }, FilePath { components: rest })
}

/// The receiver-side write location for a payload that originated at
/// `origin`, under the destination root `dest`: the shared prefix, then the
/// remainder of the destination root, then the remainder of the origin path.
pub open spec fn reconcile_spec(origin: Seq<Seq<u8>>, dest: Seq<Seq<u8>>) -> Seq<Seq<u8>> {
    let n = common_prefix_len(origin, dest);
    origin.take(n) + dest.skip(n) + origin.skip(n)
}

/// The reconciled path is the whole destination root followed by the
/// origin path's unshared remainder.
pub proof fn lemma_reconcile_alt(origin: Seq<Seq<u8>>, dest: Seq<Seq<u8>>)
    ensures
        reconcile_spec(origin, dest) == dest + origin.skip(common_prefix_len(origin, dest)),
{
    let n = common_prefix_len(origin, dest);
    lemma_common_prefix_len_bounds(origin, dest);
    assert(origin.take(n) + dest.skip(n) =~= dest);
    assert(reconcile_spec(origin, dest) =~= dest + origin.skip(n));
}

/// Reconciliation is a function of its two inputs alone: two runs on the
/// same origin path and destination root give the same target.
pub proof fn lemma_reconcile_deterministic(
    origin: Seq<Seq<u8>>,
    dest: Seq<Seq<u8>>,
    r1: Seq<Seq<u8>>,
    r2: Seq<Seq<u8>>,
)
    requires
        r1 == reconcile_spec(origin, dest),
        r2 == reconcile_spec(origin, dest),
    ensures
        r1 == r2,
{
}

/// Any prefix shared by the origin path and the destination root is a prefix
/// of the reconciled target.
pub proof fn lemma_reconcile_keeps_shared_prefix(
    origin: Seq<Seq<u8>>,
    dest: Seq<Seq<u8>>,
    p: Seq<Seq<u8>>,
)
    requires
        p.is_prefix_of(origin),
        p.is_prefix_of(dest),
    ensures
        p.is_prefix_of(reconcile_spec(origin, dest)),
{
    lemma_reconcile_alt(origin, dest);
    let r = reconcile_spec(origin, dest);
    assert forall|i: int| 0 <= i < p.len() implies r[i] == p[i] by {
        assert(r[i] == dest[i]);
    }
    assert(r.take(p.len() as int) =~= p);
}

/// Computes the write target for `origin` under `dest` (see
/// [`reconcile_spec`]).
pub fn reconcile(origin: &FilePath, dest: &FilePath) -> (r: FilePath)
    ensures
        r@ == reconcile_spec(origin@, dest@),
{
    let (prefix, origin_rest) = find_common_prefix(origin, dest);
    proof {
        lemma_common_prefix_len_bounds(origin@, dest@);
    }
    let ghost n: int = common_prefix_len(origin@, dest@);
    let mut components: Vec<Vec<u8>> = prefix.components;
    proof {
        assert(components.deep_view() == origin@.take(n));
        assert(components@.len() == n);
        assert forall|k: int| 0 <= k < n implies components@[k]@ == origin@[k] by {
            lemma_components_view_index(components, k);
        }
    }
    let start = components.len();
    let dlen = dest.components.len();
    let mut j: usize = start;
    while j < dlen
        invariant
            start <= j <= dlen,
            start == n,
            0 <= n,
            dlen == dest.components.len(),
            components@.len() == j,
            forall|k: int| 0 <= k < n ==> components@[k]@ == origin@[k],
            forall|k: int| n <= k < j ==> components@[k]@ == dest.components@[k]@,
        decreases dlen - j,
    {
        let c = copy_bytes(&dest.components[j]);
        components.push(c);
        j = j + 1;
    }
    let rlen = origin_rest.components.len();
    let mut k: usize = 0;
    while k < rlen
        invariant
            k <= rlen,
            start == n,
            0 <= n,
            rlen == origin_rest.components.len(),
            dlen == dest.components.len(),
            components@.len() == dlen + k,
            n <= dlen,
            forall|m: int| 0 <= m < n ==> components@[m]@ == origin@[m],
            forall|m: int| n <= m < dlen ==> components@[m]@ == dest.components@[m]@,
            forall|m: int| 0 <= m < k ==> components@[dlen + m]@ == origin_rest.components@[m]@,
        decreases rlen - k,
    {
        let c = copy_bytes(&origin_rest.components[k]);
        components.push(c);
        k = k + 1;
    }
    proof {
        lemma_reconcile_alt(origin@, dest@);
        let target = reconcile_spec(origin@, dest@);
        assert(target == dest@ + origin@.skip(n));
        assert(origin_rest@ == origin@.skip(n));
        assert(origin_rest@.len() == origin@.len() - n);
        assert(rlen == origin_rest@.len());
        assert(components@.len() == target.len());
        assert forall|m: int| 0 <= m < target.len() implies components@[m]@ == target[m] by {
            if m < n {
                assert(target[m] == dest@[m]);
                lemma_common_prefix_len_bounds(origin@, dest@);
                assert(origin@[m] == dest@[m]);
            } else if m < dlen {
                assert(target[m] == dest@[m]);
                lemma_components_view_index(dest.components, m);
            } else {
                assert(target[m] == origin@.skip(n)[m - dlen]);
                assert(origin_rest@[m - dlen] == origin@.skip(n)[m - dlen]);
                lemma_components_view_index(origin_rest.components, m - dlen);
            }
        }
        lemma_components_view_is(components, target);
    }
    FilePath { components }
}

} // verus!
