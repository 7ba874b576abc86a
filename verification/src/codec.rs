//! The wire codec for [`Data`] messages.
//!
//! A message is a byte string.  Every integer is eight little-endian bytes;
//! a byte string is its length followed by its bytes.  A message opens with
//! its leading field name — `directories` for a manifest, `file` for a
//! payload — so the two shapes are told apart structurally, by which field
//! comes first, never by a discriminant byte; the two field sets do not
//! overlap.  A manifest then carries its descriptor count and each
//! descriptor (path, modified time, size); a payload carries its origin path
//! and its content bytes.

use crate::manifest::lemma_dirs_deep_view_index;
use crate::manifest::Data;
use crate::manifest::DataView;
use crate::manifest::Directory;
use crate::manifest::DirectoryView;
use crate::manifest::FileData;
use crate::manifest::FileDataView;
use crate::path::lemma_components_view_index;
use crate::path::FilePath;
use vstd::bytes::spec_u64_from_le_bytes;
use vstd::bytes::spec_u64_to_le_bytes;
use vstd::prelude::*;

verus! {

/// The leading field name of a manifest message.
pub open spec fn tag_manifest() -> Seq<u8> {
    seq![100u8, 105u8, 114u8, 101u8, 99u8, 116u8, 111u8, 114u8, 105u8, 101u8, 115u8]
}

/// The leading field name of a payload message.
pub open spec fn tag_payload() -> Seq<u8> {
    seq![102u8, 105u8, 108u8, 101u8]
}

pub open spec fn enc_u64(n: u64) -> Seq<u8> {
    spec_u64_to_le_bytes(n)
}

pub open spec fn enc_bytes(b: Seq<u8>) -> Seq<u8> {
    enc_u64(b.len() as u64) + b
}

pub open spec fn enc_comps(p: Seq<Seq<u8>>) -> Seq<u8>
    decreases p.len(),
{
    if p.len() == 0 {
        Seq::empty()
    } else {
        enc_bytes(p[0]) + enc_comps(p.skip(1))
    }
}

pub open spec fn enc_path(p: Seq<Seq<u8>>) -> Seq<u8> {
    enc_u64(p.len() as u64) + enc_comps(p)
}

pub open spec fn enc_dir(d: DirectoryView) -> Seq<u8> {
    enc_path(d.file_path) + enc_u64(d.modified) + enc_u64(d.size)
}

pub open spec fn enc_dirs(s: Seq<DirectoryView>) -> Seq<u8>
    decreases s.len(),
{
    if s.len() == 0 {
        Seq::empty()
    } else {
        enc_dir(s[0]) + enc_dirs(s.skip(1))
    }
}

/// The byte encoding of a message.
pub open spec fn spec_encode(m: DataView) -> Seq<u8> {
    match m {
        DataView::WebMessage { directories } => enc_bytes(tag_manifest()) + enc_u64(
            directories.len() as u64,
        ) + enc_dirs(directories),
        DataView::JsonFileMessage { file } => enc_bytes(tag_payload()) + enc_path(file.dir)
            + enc_bytes(file.contents),
    }
}

/// Whether every count in a path fits the wire's eight-byte integers.
pub open spec fn wf_wire_path(p: Seq<Seq<u8>>) -> bool {
    &&& p.len() <= u64::MAX
    &&& forall|i: int| 0 <= i < p.len() ==> (#[trigger] p[i]).len() <= u64::MAX
}

/// Whether every count in a message fits the wire's eight-byte integers.
/// Every message built from in-memory values is of this shape.
pub open spec fn wf_wire(m: DataView) -> bool {
    match m {
        DataView::WebMessage { directories } => {
            &&& directories.len() <= u64::MAX
            &&& forall|i: int|
                0 <= i < directories.len() ==> wf_wire_path(
                    (#[trigger] directories[i]).file_path,
                )
        },
        DataView::JsonFileMessage { file } => {
            &&& wf_wire_path(file.dir)
            &&& file.contents.len() <= u64::MAX
        },
    }
}

pub proof fn lemma_enc_comps_push(p: Seq<Seq<u8>>, x: Seq<u8>)
    ensures
        enc_comps(p.push(x)) == enc_comps(p) + enc_bytes(x),
    decreases p.len(),
{
    if p.len() == 0 {
        assert(p.push(x)[0] == x);
        assert(p.push(x).skip(1) =~= p);
        assert(enc_comps(p.push(x)) == enc_bytes(x) + enc_comps(p));
        assert(enc_comps(p) == Seq::<u8>::empty());
        assert(enc_comps(p.push(x)) =~= enc_comps(p) + enc_bytes(x));
    } else {
        assert(p.push(x).skip(1) =~= p.skip(1).push(x));
        lemma_enc_comps_push(p.skip(1), x);
        assert(p.push(x)[0] == p[0]);
        assert(enc_comps(p.push(x)) == enc_bytes(p[0]) + enc_comps(p.skip(1).push(x)));
        assert(enc_comps(p) == enc_bytes(p[0]) + enc_comps(p.skip(1)));
        assert(enc_comps(p.push(x)) =~= enc_comps(p) + enc_bytes(x));
    }
}

pub proof fn lemma_enc_dirs_push(s: Seq<DirectoryView>, d: DirectoryView)
    ensures
        enc_dirs(s.push(d)) == enc_dirs(s) + enc_dir(d),
    decreases s.len(),
{
    if s.len() == 0 {
        assert(s.push(d)[0] == d);
        assert(s.push(d).skip(1) =~= s);
        assert(enc_dirs(s.push(d)) == enc_dir(d) + enc_dirs(s));
        assert(enc_dirs(s) == Seq::<u8>::empty());
        assert(enc_dirs(s.push(d)) =~= enc_dirs(s) + enc_dir(d));
    } else {
        assert(s.push(d).skip(1) =~= s.skip(1).push(d));
        lemma_enc_dirs_push(s.skip(1), d);
        assert(s.push(d)[0] == s[0]);
        assert(enc_dirs(s.push(d)) == enc_dir(s[0]) + enc_dirs(s.skip(1).push(d)));
        assert(enc_dirs(s) == enc_dir(s[0]) + enc_dirs(s.skip(1)));
        assert(enc_dirs(s.push(d)) =~= enc_dirs(s) + enc_dir(d));
    }
}

/// The manifest field name as bytes.
fn manifest_tag() -> (r: Vec<u8>)
    ensures
        r@ == tag_manifest(),
{
    let mut v: Vec<u8> = Vec::new();
    v.push(100u8);
    v.push(105u8);
    v.push(114u8);
    v.push(101u8);
    v.push(99u8);
    v.push(116u8);
    v.push(111u8);
    v.push(114u8);
    v.push(105u8);
    v.push(101u8);
    v.push(115u8);
    proof {
        assert(v@ =~= tag_manifest());
    }
    v
}

/// The payload field name as bytes.
fn payload_tag() -> (r: Vec<u8>)
    ensures
        r@ == tag_payload(),
{
    let mut v: Vec<u8> = Vec::new();
    v.push(102u8);
    v.push(105u8);
    v.push(108u8);
    v.push(101u8);
    proof {
        assert(v@ =~= tag_payload());
    }
    v
}

fn push_u64(out: &mut Vec<u8>, n: u64)
    ensures
        final(out)@ == old(out)@ + enc_u64(n),
{
    let mut t = vstd::bytes::u64_to_le_bytes(n);
    out.append(&mut t);
}

fn push_bytes(out: &mut Vec<u8>, b: &Vec<u8>)
    ensures
        final(out)@ == old(out)@ + enc_bytes(b@),
{
    push_u64(out, b.len() as u64);
    let ghost base = out@;
    let mut i: usize = 0;
    while i < b.len()
        invariant
            i <= b.len(),
            out@ == base + b@.take(i as int),
        decreases b.len() - i,
    {
        out.push(b[i]);
        proof {
            assert(out@ =~= base + b@.take(i + 1));
        }
        i = i + 1;
    }
    proof {
        assert(b@.take(b@.len() as int) =~= b@);
        assert(out@ =~= old(out)@ + enc_bytes(b@));
    }
}

fn push_path(out: &mut Vec<u8>, p: &FilePath)
    ensures
        final(out)@ == old(out)@ + enc_path(p@),
{
    push_u64(out, p.components.len() as u64);
    let ghost base = out@;
    let mut k: usize = 0;
    while k < p.components.len()
        invariant
            k <= p.components.len(),
            p@.len() == p.components@.len(),
            out@ == base + enc_comps(p@.take(k as int)),
        decreases p.components.len() - k,
    {
        push_bytes(out, &p.components[k]);
        proof {
            lemma_components_view_index(p.components, k as int);
            lemma_enc_comps_push(p@.take(k as int), p@[k as int]);
            assert(p@.take(k + 1) =~= p@.take(k as int).push(p@[k as int]));
            assert(out@ =~= base + enc_comps(p@.take(k + 1)));
        }
        k = k + 1;
    }
    proof {
        assert(p@.take(p@.len() as int) =~= p@);
        assert(out@ =~= old(out)@ + enc_path(p@));
    }
}

fn push_dir(out: &mut Vec<u8>, d: &Directory)
    ensures
        final(out)@ == old(out)@ + enc_dir(d@),
{
    push_path(out, &d.file_path);
    push_u64(out, d.modified);
    push_u64(out, d.size);
    proof {
        assert(out@ =~= old(out)@ + enc_dir(d@));
    }
}

/// Encodes a message for the wire (see [`spec_encode`]).
pub fn encode(m: &Data) -> (r: Vec<u8>)
    ensures
        r@ == spec_encode(m@),
{
    let mut out: Vec<u8> = Vec::new();
    match m {
        Data::WebMessage { directories } => {
            let tag = manifest_tag();
            push_bytes(&mut out, &tag);
            push_u64(&mut out, directories.len() as u64);
            let ghost base = out@;
            let ghost dviews = directories.deep_view();
            let mut i: usize = 0;
            while i < directories.len()
                invariant
                    i <= directories.len(),
                    dviews == directories.deep_view(),
                    dviews.len() == directories@.len(),
                    out@ == base + enc_dirs(dviews.take(i as int)),
                decreases directories.len() - i,
            {
                push_dir(&mut out, &directories[i]);
                proof {
                    lemma_dirs_deep_view_index(*directories, i as int);
                    lemma_enc_dirs_push(dviews.take(i as int), dviews[i as int]);
                    assert(dviews.take(i + 1) =~= dviews.take(i as int).push(dviews[i as int]));
                    assert(out@ =~= base + enc_dirs(dviews.take(i + 1)));
                }
                i = i + 1;
            }
            proof {
                assert(dviews.take(dviews.len() as int) =~= dviews);
                assert(out@ =~= spec_encode(m@));
            }
        },
        Data::JsonFileMessage { file } => {
            let tag = payload_tag();
            push_bytes(&mut out, &tag);
            push_path(&mut out, &file.dir);
            push_bytes(&mut out, &file.contents);
            proof {
                assert(out@ =~= spec_encode(m@));
            }
        },
    }
    out
}


/// Reads an eight-byte little-endian integer at `i`.
pub open spec fn parse_u64(s: Seq<u8>, i: int) -> Option<(u64, int)> {
    if 0 <= i && i + 8 <= s.len() {
        Some((spec_u64_from_le_bytes(s.subrange(i, i + 8)), i + 8))
    } else {
        None
    }
}

/// Reads a length-prefixed byte string at `i`.
pub open spec fn parse_bytes(s: Seq<u8>, i: int) -> Option<(Seq<u8>, int)> {
    match parse_u64(s, i) {
        None => None,
        Some((n, j)) => if j + n <= s.len() {
            Some((s.subrange(j, j + n), j + n))
        } else {
            None
        },
    }
}

/// Reads `cnt` consecutive byte strings at `i`.
pub open spec fn parse_comps(s: Seq<u8>, i: int, cnt: nat) -> Option<(Seq<Seq<u8>>, int)>
    decreases cnt,
{
    if cnt == 0 {
        Some((Seq::empty(), i))
    } else {
        match parse_bytes(s, i) {
            None => None,
            Some((b, j)) => match parse_comps(s, j, (cnt - 1) as nat) {
                None => None,
                Some((rest, k)) => Some((seq![b] + rest, k)),
            },
        }
    }
}

/// Reads a path at `i`: a component count, then that many components.
pub open spec fn parse_path(s: Seq<u8>, i: int) -> Option<(Seq<Seq<u8>>, int)> {
    match parse_u64(s, i) {
        None => None,
        Some((n, j)) => parse_comps(s, j, n as nat),
    }
}

/// Reads a descriptor at `i`: a path, a modified time, a size.
pub open spec fn parse_dir(s: Seq<u8>, i: int) -> Option<(DirectoryView, int)> {
    match parse_path(s, i) {
        None => None,
        Some((p, j)) => match parse_u64(s, j) {
            None => None,
            Some((m, k)) => match parse_u64(s, k) {
                None => None,
                Some((sz, l)) => Some(
                    (DirectoryView { file_path: p, modified: m, size: sz }, l),
                ),
            },
        },
    }
}

/// Reads `cnt` consecutive descriptors at `i`.
pub open spec fn parse_dirs(s: Seq<u8>, i: int, cnt: nat) -> Option<(Seq<DirectoryView>, int)>
    decreases cnt,
{
    if cnt == 0 {
        Some((Seq::empty(), i))
    } else {
        match parse_dir(s, i) {
            None => None,
            Some((d, j)) => match parse_dirs(s, j, (cnt - 1) as nat) {
                None => None,
                Some((rest, k)) => Some((seq![d] + rest, k)),
            },
        }
    }
}

/// The message a byte string decodes to, if any.  The leading field name
/// picks the shape; the whole string must be consumed.
pub open spec fn spec_decode(s: Seq<u8>) -> Option<DataView> {
    match parse_bytes(s, 0) {
        None => None,
        Some((tag, i)) => if tag == tag_manifest() {
            match parse_u64(s, i) {
                None => None,
                Some((n, j)) => match parse_dirs(s, j, n as nat) {
                    None => None,
                    Some((ds, k)) => if k == s.len() {
                        Some(DataView::WebMessage { directories: ds })
                    } else {
                        None
                    },
                },
            }
        } else if tag == tag_payload() {
            match parse_path(s, i) {
                None => None,
                Some((p, j)) => match parse_bytes(s, j) {
                    None => None,
                    Some((c, k)) => if k == s.len() {
                        Some(
                            DataView::JsonFileMessage {
                                file: FileDataView { dir: p, contents: c },
                            },
                        )
                    } else {
                        None
                    },
                },
            }
        } else {
            None
        },
    }
}

fn read_u64(s: &Vec<u8>, i: usize) -> (r: Option<(u64, usize)>)
    ensures
        match r {
            Some(v) => parse_u64(s@, i as int) == Some((v.0, v.1 as int)) && v.1 <= s@.len(),
            None => parse_u64(s@, i as int) is None,
        },
{
    if s.len() >= 8 && i <= s.len() - 8 {
        let sub = vstd::slice::slice_subrange(s.as_slice(), i, i + 8);
        let x = vstd::bytes::u64_from_le_bytes(sub);
        Some((x, i + 8))
    } else {
        None
    }
}

fn read_bytes(s: &Vec<u8>, i: usize) -> (r: Option<(Vec<u8>, usize)>)
    ensures
        match r {
            Some(v) => parse_bytes(s@, i as int) == Some((v.0@, v.1 as int)) && v.1 <= s@.len(),
            None => parse_bytes(s@, i as int) is None,
        },
{
    match read_u64(s, i) {
        None => None,
        Some((n, j)) => {
            if n <= (s.len() - j) as u64 {
                let cnt = n as usize;
                let slen = s.len();
                proof {
                    assert(cnt == n);
                    assert(j + cnt <= s@.len());
                }
                let mut out: Vec<u8> = Vec::new();
                let mut k: usize = 0;
                while k < cnt
                    invariant
                        k <= cnt,
                        j + cnt <= s@.len(),
                        s@.len() == slen,
                        out@ == s@.subrange(j as int, j + k),
                    decreases cnt - k,
                {
                    out.push(s[j + k]);
                    proof {
                        assert(out@ =~= s@.subrange(j as int, j + k + 1));
                    }
                    k = k + 1;
                }
                Some((out, j + cnt))
            } else {
                None
            }
        },
    }
}

fn read_comps(s: &Vec<u8>, i: usize, cnt: u64) -> (r: Option<(Vec<Vec<u8>>, usize)>)
    requires
        i <= s@.len(),
    ensures
        match r {
            Some(v) => parse_comps(s@, i as int, cnt as nat) == Some(
                (v.0.deep_view(), v.1 as int),
            ) && v.1 <= s@.len(),
            None => parse_comps(s@, i as int, cnt as nat) is None,
        },
{
    let mut acc: Vec<Vec<u8>> = Vec::new();
    let mut cur: usize = i;
    let mut t: u64 = 0;
    proof {
        assert(acc.deep_view() =~= Seq::<Seq<u8>>::empty());
    }
    loop
        invariant
            t <= cnt,
            cur <= s@.len(),
            parse_comps(s@, i as int, cnt as nat) == (match parse_comps(
                s@,
                cur as int,
                (cnt - t) as nat,
            ) {
                None => None::<(Seq<Seq<u8>>, int)>,
                Some((rest, k)) => Some((acc.deep_view() + rest, k)),
            }),
        ensures
            t == cnt,
            cur <= s@.len(),
            parse_comps(s@, i as int, cnt as nat) == (match parse_comps(
                s@,
                cur as int,
                (cnt - t) as nat,
            ) {
                None => None::<(Seq<Seq<u8>>, int)>,
                Some((rest, k)) => Some((acc.deep_view() + rest, k)),
            }),
        decreases cnt - t,
    {
        if t == cnt {
            break;
        }
        match read_bytes(s, cur) {
            None => {
                proof {
                    assert(parse_comps(s@, cur as int, (cnt - t) as nat) is None);
                }
                return None;
            },
            Some((b, j)) => {
                let ghost old_acc = acc.deep_view();
                let ghost bv = b@;
                acc.push(b);
                proof {
                    assert forall|q: int| 0 <= q < acc@.len() implies acc.deep_view()[q]
                        == old_acc.push(bv)[q] by {
                        lemma_components_view_index(acc, q);
                        if q < old_acc.len() {
                            assert(acc@[q]@ == old_acc[q]);
                        }
                    }
                    assert(acc.deep_view() =~= old_acc.push(bv));
                    let sub1 = (cnt - (t + 1)) as nat;
                    match parse_comps(s@, j as int, sub1) {
                        None => {
                            assert(parse_comps(s@, cur as int, (cnt - t) as nat) is None);
                        },
                        Some((rest, k)) => {
                            assert(parse_comps(s@, cur as int, (cnt - t) as nat) == Some(
                                (seq![bv] + rest, k),
                            ));
                            assert(old_acc + (seq![bv] + rest) =~= old_acc.push(bv) + rest);
                        },
                    }
                }
                cur = j;
                t = t + 1;
            },
        }
    }
    proof {
        assert(parse_comps(s@, cur as int, 0) == Some((Seq::<Seq<u8>>::empty(), cur as int)));
        assert(acc.deep_view() + Seq::<Seq<u8>>::empty() =~= acc.deep_view());
    }
    Some((acc, cur))
}

fn read_path(s: &Vec<u8>, i: usize) -> (r: Option<(FilePath, usize)>)
    ensures
        match r {
            Some(v) => parse_path(s@, i as int) == Some((v.0@, v.1 as int)) && v.1 <= s@.len(),
            None => parse_path(s@, i as int) is None,
        },
{
    match read_u64(s, i) {
        None => None,
        Some((n, j)) => match read_comps(s, j, n) {
            None => None,
            Some((comps, k)) => Some((FilePath { components: comps }, k)),
        },
    }
}

fn read_dir(s: &Vec<u8>, i: usize) -> (r: Option<(Directory, usize)>)
    ensures
        match r {
            Some(v) => parse_dir(s@, i as int) == Some((v.0@, v.1 as int)) && v.1 <= s@.len(),
            None => parse_dir(s@, i as int) is None,
        },
{
    match read_path(s, i) {
        None => None,
        Some((p, j)) => match read_u64(s, j) {
            None => None,
            Some((m, k)) => match read_u64(s, k) {
                None => None,
                Some((sz, l)) => Some((Directory { file_path: p, modified: m, size: sz }, l)),
            },
        },
    }
}

fn read_dirs(s: &Vec<u8>, i: usize, cnt: u64) -> (r: Option<(Vec<Directory>, usize)>)
    requires
        i <= s@.len(),
    ensures
        match r {
            Some(v) => parse_dirs(s@, i as int, cnt as nat) == Some(
                (v.0.deep_view(), v.1 as int),
            ) && v.1 <= s@.len(),
            None => parse_dirs(s@, i as int, cnt as nat) is None,
        },
{
    let mut acc: Vec<Directory> = Vec::new();
    let mut cur: usize = i;
    let mut t: u64 = 0;
    proof {
        assert(acc.deep_view() =~= Seq::<DirectoryView>::empty());
    }
    loop
        invariant
            t <= cnt,
            cur <= s@.len(),
            parse_dirs(s@, i as int, cnt as nat) == (match parse_dirs(
                s@,
                cur as int,
                (cnt - t) as nat,
            ) {
                None => None::<(Seq<DirectoryView>, int)>,
                Some((rest, k)) => Some((acc.deep_view() + rest, k)),
            }),
        ensures
            t == cnt,
            cur <= s@.len(),
            parse_dirs(s@, i as int, cnt as nat) == (match parse_dirs(
                s@,
                cur as int,
                (cnt - t) as nat,
            ) {
                None => None::<(Seq<DirectoryView>, int)>,
                Some((rest, k)) => Some((acc.deep_view() + rest, k)),
            }),
        decreases cnt - t,
    {
        if t == cnt {
            break;
        }
        match read_dir(s, cur) {
            None => {
                proof {
                    assert(parse_dirs(s@, cur as int, (cnt - t) as nat) is None);
                }
                return None;
            },
            Some((d, j)) => {
                let ghost old_acc = acc.deep_view();
                let ghost dv = d@;
                acc.push(d);
                proof {
                    assert forall|q: int| 0 <= q < acc@.len() implies acc.deep_view()[q]
                        == old_acc.push(dv)[q] by {
                        lemma_dirs_deep_view_index(acc, q);
                        if q < old_acc.len() {
                            assert(acc@[q]@ == old_acc[q]);
                        }
                    }
                    assert(acc.deep_view() =~= old_acc.push(dv));
                    let sub1 = (cnt - (t + 1)) as nat;
                    match parse_dirs(s@, j as int, sub1) {
                        None => {
                            assert(parse_dirs(s@, cur as int, (cnt - t) as nat) is None);
                        },
                        Some((rest, k)) => {
                            assert(parse_dirs(s@, cur as int, (cnt - t) as nat) == Some(
                                (seq![dv] + rest, k),
                            ));
                            assert(old_acc + (seq![dv] + rest) =~= old_acc.push(dv) + rest);
                        },
                    }
                }
                cur = j;
                t = t + 1;
            },
        }
    }
    proof {
        assert(parse_dirs(s@, cur as int, 0) == Some((Seq::<DirectoryView>::empty(), cur as int)));
        assert(acc.deep_view() + Seq::<DirectoryView>::empty() =~= acc.deep_view());
    }
    Some((acc, cur))
}

/// Decodes a wire byte string back into a message (see [`spec_decode`]).
/// Malformed input, an unknown leading field name, or trailing bytes give
/// `None`.
pub fn decode(s: &Vec<u8>) -> (r: Option<Data>)
    ensures
        match r {
            Some(m) => spec_decode(s@) == Some(m@),
            None => spec_decode(s@) is None,
        },
{
    match read_bytes(s, 0) {
        None => None,
        Some((tag, i)) => {
            let mtag = manifest_tag();
            let ptag = payload_tag();
            if crate::path::bytes_eq(&tag, &mtag) {
                match read_u64(s, i) {
                    None => None,
                    Some((n, j)) => match read_dirs(s, j, n) {
                        None => None,
                        Some((ds, k)) => if k == s.len() {
                            Some(Data::WebMessage { directories: ds })
                        } else {
                            None
                        },
                    },
                }
            } else if crate::path::bytes_eq(&tag, &ptag) {
                match read_path(s, i) {
                    None => None,
                    Some((p, j)) => match read_bytes(s, j) {
                        None => None,
                        Some((c, k)) => if k == s.len() {
                            Some(Data::JsonFileMessage { file: FileData { dir: p, contents: c } })
                        } else {
                            None
                        },
                    },
                }
            } else {
                None
            }
        },
    }
}


proof fn lemma_split_two(s: Seq<u8>, i: int, a: Seq<u8>, b: Seq<u8>)
    requires
        0 <= i,
        i + a.len() + b.len() <= s.len(),
        s.subrange(i, i + a.len() + b.len()) == a + b,
    ensures
        s.subrange(i, i + a.len() as int) == a,
        s.subrange(i + a.len(), i + a.len() + b.len()) == b,
{
    assert forall|k: int| 0 <= k < a.len() implies s.subrange(i, i + a.len() as int)[k] == a[k] by {
        assert(s.subrange(i, i + a.len() + b.len())[k] == (a + b)[k]);
    }
    assert(s.subrange(i, i + a.len() as int) =~= a);
    assert forall|k: int|
        0 <= k < b.len() implies s.subrange(i + a.len(), i + a.len() + b.len())[k] == b[k] by {
        assert(s.subrange(i, i + a.len() + b.len())[a.len() + k] == (a + b)[a.len() + k]);
        assert((a + b)[a.len() + k] == b[k]);
        assert(s.subrange(i, i + a.len() + b.len())[a.len() + k] == s[i + a.len() + k]);
        assert(s.subrange(i + a.len(), i + a.len() + b.len())[k] == s[i + a.len() + k]);
    }
    assert(s.subrange(i + a.len(), i + a.len() + b.len()) =~= b);
}

pub proof fn lemma_parse_u64_at(s: Seq<u8>, i: int, n: u64)
    requires
        0 <= i,
        i + 8 <= s.len(),
        s.subrange(i, i + 8) == enc_u64(n),
    ensures
        parse_u64(s, i) == Some((n, i + 8)),
{
    vstd::bytes::lemma_auto_spec_u64_to_from_le_bytes();
}

pub proof fn lemma_parse_bytes_at(s: Seq<u8>, i: int, b: Seq<u8>)
    requires
        0 <= i,
        b.len() <= u64::MAX,
        i + 8 + b.len() <= s.len(),
        s.subrange(i, i + 8 + b.len()) == enc_bytes(b),
    ensures
        parse_bytes(s, i) == Some((b, i + 8 + b.len())),
{
    vstd::bytes::lemma_auto_spec_u64_to_from_le_bytes();
    let n = b.len() as u64;
    assert(enc_u64(n).len() == 8);
    lemma_split_two(s, i, enc_u64(n), b);
    lemma_parse_u64_at(s, i, n);
    assert(n as int == b.len());
}

pub proof fn lemma_parse_comps_at(s: Seq<u8>, i: int, p: Seq<Seq<u8>>)
    requires
        0 <= i,
        forall|t: int| 0 <= t < p.len() ==> (#[trigger] p[t]).len() <= u64::MAX,
        i + enc_comps(p).len() <= s.len(),
        s.subrange(i, i + enc_comps(p).len()) == enc_comps(p),
    ensures
        parse_comps(s, i, p.len() as nat) == Some((p, i + enc_comps(p).len())),
    decreases p.len(),
{
    vstd::bytes::lemma_auto_spec_u64_to_from_le_bytes();
    if p.len() == 0 {
        assert(p =~= Seq::<Seq<u8>>::empty());
    } else {
        let b = p[0];
        let rest = enc_comps(p.skip(1));
        assert(enc_comps(p) == enc_bytes(b) + rest);
        assert(enc_bytes(b).len() == 8 + b.len());
        lemma_split_two(s, i, enc_bytes(b), rest);
        lemma_parse_bytes_at(s, i, b);
        let l0 = 8 + b.len();
        assert forall|t: int|
            0 <= t < p.skip(1).len() implies (#[trigger] p.skip(1)[t]).len() <= u64::MAX by {
            assert(p.skip(1)[t] == p[t + 1]);
        }
        lemma_parse_comps_at(s, i + l0, p.skip(1));
        assert(p.skip(1).len() as nat == (p.len() as nat - 1) as nat);
        assert(seq![b] + p.skip(1) =~= p);
        assert(i + l0 + rest.len() == i + enc_comps(p).len());
    }
}

pub proof fn lemma_parse_path_at(s: Seq<u8>, i: int, p: Seq<Seq<u8>>)
    requires
        0 <= i,
        wf_wire_path(p),
        i + enc_path(p).len() <= s.len(),
        s.subrange(i, i + enc_path(p).len()) == enc_path(p),
    ensures
        parse_path(s, i) == Some((p, i + enc_path(p).len())),
{
    vstd::bytes::lemma_auto_spec_u64_to_from_le_bytes();
    let n = p.len() as u64;
    assert(enc_u64(n).len() == 8);
    lemma_split_two(s, i, enc_u64(n), enc_comps(p));
    lemma_parse_u64_at(s, i, n);
    lemma_parse_comps_at(s, i + 8, p);
    assert(n as nat == p.len());
}

pub proof fn lemma_parse_dir_at(s: Seq<u8>, i: int, d: DirectoryView)
    requires
        0 <= i,
        wf_wire_path(d.file_path),
        i + enc_dir(d).len() <= s.len(),
        s.subrange(i, i + enc_dir(d).len()) == enc_dir(d),
    ensures
        parse_dir(s, i) == Some((d, i + enc_dir(d).len())),
{
    vstd::bytes::lemma_auto_spec_u64_to_from_le_bytes();
    let ep = enc_path(d.file_path);
    let em = enc_u64(d.modified);
    let es = enc_u64(d.size);
    assert(enc_dir(d) =~= ep + (em + es));
    lemma_split_two(s, i, ep, em + es);
    lemma_split_two(s, i + ep.len(), em, es);
    lemma_parse_path_at(s, i, d.file_path);
    lemma_parse_u64_at(s, i + ep.len(), d.modified);
    lemma_parse_u64_at(s, i + ep.len() + 8, d.size);
    assert(i + ep.len() + 8 + 8 == i + enc_dir(d).len());
}

pub proof fn lemma_parse_dirs_at(s: Seq<u8>, i: int, ds: Seq<DirectoryView>)
    requires
        0 <= i,
        forall|t: int| 0 <= t < ds.len() ==> wf_wire_path((#[trigger] ds[t]).file_path),
        i + enc_dirs(ds).len() <= s.len(),
        s.subrange(i, i + enc_dirs(ds).len()) == enc_dirs(ds),
    ensures
        parse_dirs(s, i, ds.len() as nat) == Some((ds, i + enc_dirs(ds).len())),
    decreases ds.len(),
{
    if ds.len() == 0 {
        assert(ds =~= Seq::<DirectoryView>::empty());
    } else {
        let d = ds[0];
        let rest = enc_dirs(ds.skip(1));
        assert(enc_dirs(ds) == enc_dir(d) + rest);
        lemma_split_two(s, i, enc_dir(d), rest);
        lemma_parse_dir_at(s, i, d);
        let l0 = enc_dir(d).len() as int;
        assert forall|t: int|
            0 <= t < ds.skip(1).len() implies wf_wire_path(
            (#[trigger] ds.skip(1)[t]).file_path,
        ) by {
            assert(ds.skip(1)[t] == ds[t + 1]);
        }
        lemma_parse_dirs_at(s, i + l0, ds.skip(1));
        assert(ds.skip(1).len() as nat == (ds.len() as nat - 1) as nat);
        assert(seq![d] + ds.skip(1) =~= ds);
        assert(i + l0 + rest.len() == i + enc_dirs(ds).len());
    }
}

/// Round trip of the codec: decoding an encoded message yields the message
/// itself, for every message whose counts fit the wire's eight-byte
/// integers.
pub proof fn lemma_codec_round_trip(m: DataView)
    requires
        wf_wire(m),
    ensures
        spec_decode(spec_encode(m)) == Some(m),
{
    vstd::bytes::lemma_auto_spec_u64_to_from_le_bytes();
    let s = spec_encode(m);
    match m {
        DataView::WebMessage { directories } => {
            let tag = tag_manifest();
            let n = directories.len() as u64;
            let body = enc_dirs(directories);
            assert(s == enc_bytes(tag) + enc_u64(n) + body);
            assert(s =~= enc_bytes(tag) + (enc_u64(n) + body));
            assert(enc_bytes(tag).len() == 19);
            assert(s.subrange(0, s.len() as int) =~= s);
            lemma_split_two(s, 0, enc_bytes(tag), enc_u64(n) + body);
            lemma_split_two(s, 19, enc_u64(n), body);
            lemma_parse_bytes_at(s, 0, tag);
            lemma_parse_u64_at(s, 19, n);
            assert forall|t: int|
                0 <= t < directories.len() implies wf_wire_path(
                (#[trigger] directories[t]).file_path,
            ) by {}
            lemma_parse_dirs_at(s, 27, directories);
            assert(n as nat == directories.len());
            assert(27 + body.len() == s.len());
        },
        DataView::JsonFileMessage { file } => {
            let tag = tag_payload();
            let ep = enc_path(file.dir);
            let ec = enc_bytes(file.contents);
            assert(s == enc_bytes(tag) + ep + ec);
            assert(s =~= enc_bytes(tag) + (ep + ec));
            assert(enc_bytes(tag).len() == 12);
            assert(s.subrange(0, s.len() as int) =~= s);
            lemma_split_two(s, 0, enc_bytes(tag), ep + ec);
            lemma_split_two(s, 12, ep, ec);
            lemma_parse_bytes_at(s, 0, tag);
            assert(tag_payload().len() != tag_manifest().len());
            assert(tag != tag_manifest());
            lemma_parse_path_at(s, 12, file.dir);
            lemma_parse_bytes_at(s, 12 + ep.len() as int, file.contents);
            assert(12 + ep.len() + ec.len() == s.len());
        },
    }
}

/// Every path held in memory has wire-sized counts.
pub proof fn lemma_filepath_wf(p: FilePath)
    ensures
        wf_wire_path(p@),
{
    vstd::std_specs::vec::axiom_spec_len(&p.components);
    assert forall|i: int| 0 <= i < p@.len() implies (#[trigger] p@[i]).len() <= u64::MAX by {
        lemma_components_view_index(p.components, i);
        vstd::std_specs::vec::axiom_spec_len(&p.components@[i]);
    }
}

/// Every message held in memory has wire-sized counts.
pub proof fn lemma_data_wf(m: Data)
    ensures
        wf_wire(m@),
{
    match m {
        Data::WebMessage { directories } => {
            vstd::std_specs::vec::axiom_spec_len(&directories);
            assert forall|i: int|
                0 <= i < directories.deep_view().len() implies wf_wire_path(
                (#[trigger] directories.deep_view()[i]).file_path,
            ) by {
                lemma_dirs_deep_view_index(directories, i);
                lemma_filepath_wf(directories@[i].file_path);
            }
        },
        Data::JsonFileMessage { file } => {
            lemma_filepath_wf(file.dir);
            vstd::std_specs::vec::axiom_spec_len(&file.contents);
        },
    }
}


/// Round trip for any message value held in memory: decoding the encoding
/// of its view yields that view again.
pub proof fn lemma_round_trip_value(m: &Data)
    ensures
        spec_decode(spec_encode(m@)) == Some(m@),
{
    lemma_data_wf(*m);
    lemma_codec_round_trip(m@);
}


/// The wire encoding is unambiguous: two different messages never share an
/// encoding, so the decoder can tell the two shapes apart from the bytes
/// alone.
pub proof fn lemma_encoding_unambiguous(m1: DataView, m2: DataView)
    requires
        wf_wire(m1),
        wf_wire(m2),
        m1 != m2,
    ensures
        spec_encode(m1) != spec_encode(m2),
{
    if spec_encode(m1) == spec_encode(m2) {
        lemma_codec_round_trip(m1);
        lemma_codec_round_trip(m2);
    }
}

} // verus!
