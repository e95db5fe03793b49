//! Unix paths as byte strings, taken apart at their separators.
use vstd::prelude::*;

verus! {

/// The separator of path components.
pub const SLASH: u8 = 0x2f;

/// The full stop.
pub const DOT: u8 = 0x2e;

/// A path of a Unix file system: any bytes, separated by `/`.
#[derive(Debug, Hash)]
pub struct UnixPath {
    pub bytes: Vec<u8>,
}

impl View for UnixPath {
    type V = Seq<u8>;

    open spec fn view(&self) -> Seq<u8> {
        self.bytes@
    }
}

impl Clone for UnixPath {
    fn clone(&self) -> (r: Self)
        ensures
            r@ == self@,
    {
        UnixPath { bytes: copy_bytes(self.bytes.as_slice()) }
    }
}

/// A component of a path starts at index `i`: the root, or the first byte of a name between
/// separators. The name `.` counts at the very start of a path only.
pub open spec fn starts_component(p: Seq<u8>, i: int) -> bool {
    if p[i] == SLASH {
        i == 0
    } else {
        &&& i == 0 || p[i - 1] == SLASH
        &&& !(i > 0 && p[i] == DOT && (i + 1 == p.len() || p[i + 1] == SLASH))
    }
}

/// Where the name that covers index `i` ends.
pub open spec fn name_end(p: Seq<u8>, i: int) -> int
    decreases p.len() - i,
{
    if i < 0 || i >= p.len() || p[i] == SLASH {
        i
    } else {
        name_end(p, i + 1)
    }
}

/// Where the component that starts at index `i` ends.
pub open spec fn component_end(p: Seq<u8>, i: int) -> int {
    if p[i] == SLASH {
        i + 1
    } else {
        name_end(p, i)
    }
}

/// The start and end of every component that starts before index `n`.
pub open spec fn spans(p: Seq<u8>, n: int) -> Seq<(int, int)>
    decreases n,
{
    if n <= 0 {
        Seq::empty()
    } else if starts_component(p, n - 1) {
        spans(p, n - 1).push((n - 1, component_end(p, n - 1)))
    } else {
        spans(p, n - 1)
    }
}

/// The start and end of every component of a path.
pub open spec fn components(p: Seq<u8>) -> Seq<(int, int)> {
    spans(p, p.len() as int)
}

/// The bytes of every component of a path: `/` for the root, `.` and `..`, or a name.
///
/// Two paths lead the same way if and only if these are the same.
pub open spec fn names(p: Seq<u8>) -> Seq<Seq<u8>> {
    components(p).map_values(|c: (int, int)| p.subrange(c.0, c.1))
}

/// A component that is neither the root nor `.` nor `..`.
pub open spec fn is_normal(name: Seq<u8>) -> bool {
    &&& name != seq![SLASH]
    &&& name != seq![DOT]
    &&& name != seq![DOT, DOT]
}

/// The bytes from the start of component `from` to the end of the last one before `to`.
pub open spec fn stretch(p: Seq<u8>, from: int, to: int) -> Seq<u8> {
    if from < to {
        p.subrange(components(p)[from].0, components(p)[to - 1].1)
    } else {
        Seq::empty()
    }
}

/// The path without its last component, unless that is the root or missing.
pub open spec fn parent_of(p: Seq<u8>) -> Option<Seq<u8>> {
    let n = components(p).len();
    if n == 0 || names(p)[n - 1] == seq![SLASH] {
        None
    } else {
        Some(stretch(p, 0, n - 1))
    }
}

/// The last component, if it is a plain name.
pub open spec fn file_name_of(p: Seq<u8>) -> Option<Seq<u8>> {
    let n = names(p).len();
    if n > 0 && is_normal(names(p)[n - 1]) {
        Some(names(p)[n - 1])
    } else {
        None
    }
}

/// The path below `base`, if it leads through it.
pub open spec fn below(p: Seq<u8>, base: Seq<u8>) -> Option<Seq<u8>> {
    if names(base).is_prefix_of(names(p)) {
        Some(stretch(p, names(base).len() as int, names(p).len() as int))
    } else {
        None
    }
}

/// The path that leads along `base` and then along `rest`.
pub open spec fn joined(base: Seq<u8>, rest: Seq<u8>) -> Seq<u8> {
    if rest.len() > 0 && rest[0] == SLASH {
        rest
    } else if base.len() > 0 && base.last() != SLASH {
        base.push(SLASH) + rest
    } else {
        base + rest
    }
}

proof fn lemma_name_end(p: Seq<u8>, i: int)
    requires
        0 <= i <= p.len(),
    ensures
        i <= name_end(p, i) <= p.len(),
        i < p.len() && p[i] != SLASH ==> i < name_end(p, i),
    decreases p.len() - i,
{
    if i < p.len() && p[i] != SLASH {
        lemma_name_end(p, i + 1);
    }
}

/// Every component lies inside the path, is not empty, and the components come in order.
pub proof fn lemma_spans(p: Seq<u8>, n: int)
    requires
        0 <= n <= p.len(),
    ensures
        forall|k: int|
            0 <= k < spans(p, n).len() ==> 0 <= (#[trigger] spans(p, n)[k]).0 < n
                && spans(p, n)[k].0 < spans(p, n)[k].1 <= p.len(),
        forall|j: int, k: int|
            0 <= j < k < spans(p, n).len() ==> (#[trigger] spans(p, n)[j]).0 < (
            #[trigger] spans(p, n)[k]).0,
        n > 0 ==> spans(p, n).len() > 0 && spans(p, n)[0].0 == 0,
    decreases n,
{
    if n > 0 {
        lemma_spans(p, n - 1);
        lemma_name_end(p, n - 1);
        let before = spans(p, n - 1);
        let all = spans(p, n);
        assert forall|k: int| 0 <= k < all.len() implies 0 <= (#[trigger] all[k]).0 < n && all[k].0
            < all[k].1 <= p.len() by {
            if k < before.len() {
                assert(all[k] == before[k]);
            }
        }
        assert forall|j: int, k: int| 0 <= j < k < all.len() implies (#[trigger] all[j]).0 < (
        #[trigger] all[k]).0 by {
            assert(all[j] == before[j]);
            if k < before.len() {
                assert(all[k] == before[k]);
            }
        }
    }
}

/// A component starts where it says, and ends where that component does.
pub proof fn lemma_span_starts(p: Seq<u8>, n: int, k: int)
    requires
        0 <= n <= p.len(),
        0 <= k < spans(p, n).len(),
    ensures
        starts_component(p, spans(p, n)[k].0),
        spans(p, n)[k].1 == component_end(p, spans(p, n)[k].0),
    decreases n,
{
    if n > 0 && k < spans(p, n - 1).len() {
        lemma_span_starts(p, n - 1, k);
    }
}

/// Copies a slice of bytes.
pub fn copy_bytes(s: &[u8]) -> (v: Vec<u8>)
    ensures
        v@ == s@,
{
    vstd::slice::slice_to_vec(s)
}

fn starts_at(p: &[u8], i: usize) -> (r: bool)
    requires
        i < p@.len(),
    ensures
        r == starts_component(p@, i as int),
{
    if p[i] == SLASH {
        i == 0
    } else {
        (i == 0 || p[i - 1] == SLASH) && !(i > 0 && p[i] == DOT && (i + 1 == p.len() || p[i + 1]
            == SLASH))
    }
}

fn end_of(p: &[u8], i: usize) -> (r: usize)
    requires
        i < p@.len(),
    ensures
        r == component_end(p@, i as int),
{
    if p[i] == SLASH {
        return i + 1;
    }
    let mut e: usize = i;
    while e < p.len() && p[e] != SLASH
        invariant
            i <= e <= p@.len(),
            name_end(p@, e as int) == name_end(p@, i as int),
        decreases p@.len() - e,
    {
        e = e + 1;
    }
    e
}

/// The spans that a list of index pairs stands for.
pub open spec fn as_spans(v: Seq<(usize, usize)>) -> Seq<(int, int)> {
    v.map_values(|c: (usize, usize)| (c.0 as int, c.1 as int))
}

/// Finds the components of a path.
pub fn find_components(p: &[u8]) -> (v: Vec<(usize, usize)>)
    ensures
        as_spans(v@) == components(p@),
{
    let mut v: Vec<(usize, usize)> = Vec::new();
    let mut i: usize = 0;
    while i < p.len()
        invariant
            i <= p@.len(),
            as_spans(v@) =~= spans(p@, i as int),
        decreases p@.len() - i,
    {
        if starts_at(p, i) {
            let e = end_of(p, i);
            let ghost before = v@;
            v.push((i, e));
            assert(as_spans(v@) =~= as_spans(before).push((i as int, e as int)));
        }
        i = i + 1;
    }
    v
}

/// Whether two slices hold the same bytes.
pub fn same_bytes(a: &[u8], b: &[u8]) -> (r: bool)
    ensures
        r == (a@ == b@),
{
    if a.len() != b.len() {
        return false;
    }
    let mut i: usize = 0;
    while i < a.len()
        invariant
            a@.len() == b@.len(),
            i <= a@.len(),
            forall|j: int| 0 <= j < i ==> a@[j] == b@[j],
        decreases a@.len() - i,
    {
        if a[i] != b[i] {
            return false;
        }
        i = i + 1;
    }
    assert(a@ =~= b@);
    true
}

fn piece(p: &[u8], from: usize, to: usize) -> (v: Vec<u8>)
    requires
        from <= to <= p@.len(),
    ensures
        v@ == p@.subrange(from as int, to as int),
{
    copy_bytes(&p[from..to])
}

/// The path without its last component.
pub fn parent(p: &[u8]) -> (r: Option<Vec<u8>>)
    ensures
        match r {
            Some(v) => parent_of(p@) == Some(v@),
            None => parent_of(p@) is None,
        },
{
    let v = find_components(p);
    proof {
        lemma_spans(p@, p@.len() as int);
    }
    let n = v.len();
    if n == 0 {
        return None;
    }
    let last = v[n - 1];
    assert(components(p@)[n - 1] == (last.0 as int, last.1 as int));
    let name = piece(p, last.0, last.1);
    assert(names(p@)[n - 1] == name@);
    if name.len() == 1 && name[0] == SLASH {
        assert(name@ =~= seq![SLASH]);
        return None;
    }
    if n == 1 {
        Some(Vec::new())
    } else {
        let previous = v[n - 2];
        assert(components(p@)[n - 2] == (previous.0 as int, previous.1 as int));
        Some(piece(p, 0, previous.1))
    }
}

/// Whether a component is a plain name.
pub fn normal(name: &Vec<u8>) -> (r: bool)
    ensures
        r == is_normal(name@),
{
    if name.len() == 1 {
        assert(name@ =~= seq![name@[0]]);
        name[0] != SLASH && name[0] != DOT
    } else if name.len() == 2 {
        assert(name@ =~= seq![name@[0], name@[1]]);
        !(name[0] == DOT && name[1] == DOT)
    } else {
        true
    }
}

/// The bytes that a list of byte strings holds.
pub open spec fn all_bytes(v: Seq<Vec<u8>>) -> Seq<Seq<u8>> {
    v.map_values(|b: Vec<u8>| b@)
}

/// The bytes of every component of a path.
pub fn component_names(p: &[u8]) -> (r: Vec<Vec<u8>>)
    ensures
        all_bytes(r@) == names(p@),
{
    let v = find_components(p);
    proof {
        lemma_spans(p@, p@.len() as int);
    }
    let mut r: Vec<Vec<u8>> = Vec::new();
    let mut k: usize = 0;
    while k < v.len()
        invariant
            as_spans(v@) == components(p@),
            forall|k: int|
                0 <= k < components(p@).len() ==> 0 <= (#[trigger] components(p@)[k]).0
                    < components(p@)[k].1 <= p@.len(),
            k <= v@.len(),
            all_bytes(r@) =~= names(p@).take(k as int),
        decreases v@.len() - k,
    {
        let c = v[k];
        assert(components(p@)[k as int] == (c.0 as int, c.1 as int));
        let name = piece(p, c.0, c.1);
        let ghost before = r@;
        r.push(name);
        assert(all_bytes(r@) =~= all_bytes(before).push(name@));
        k = k + 1;
    }
    assert(names(p@).take(k as int) =~= names(p@));
    r
}

/// The last component, if it is a plain name.
pub fn file_name(p: &[u8]) -> (r: Option<Vec<u8>>)
    ensures
        match r {
            Some(v) => file_name_of(p@) == Some(v@),
            None => file_name_of(p@) is None,
        },
{
    let mut v = component_names(p);
    let n = v.len();
    assert(names(p@).len() == n);
    match v.pop() {
        Some(last) => {
            assert(names(p@)[n - 1] == last@);
            if normal(&last) {
                Some(last)
            } else {
                None
            }
        },
        None => None,
    }
}

/// Whether two paths lead the same way.
pub fn same_path(a: &[u8], b: &[u8]) -> (r: bool)
    ensures
        r == (names(a@) == names(b@)),
{
    let x = component_names(a);
    let y = component_names(b);
    assert(names(a@).len() == x@.len() && names(b@).len() == y@.len());
    x.len() == y.len() && starts_with_names(&y, &x)
}

/// Whether the list `y` starts with the list `x`.
pub fn starts_with_names(y: &Vec<Vec<u8>>, x: &Vec<Vec<u8>>) -> (r: bool)
    requires
        x@.len() <= y@.len(),
    ensures
        r == all_bytes(x@).is_prefix_of(all_bytes(y@)),
        x@.len() == y@.len() ==> r == (all_bytes(x@) == all_bytes(y@)),
{
    let mut k: usize = 0;
    while k < x.len()
        invariant
            k <= x@.len() <= y@.len(),
            forall|j: int| 0 <= j < k ==> all_bytes(x@)[j] == all_bytes(y@)[j],
        decreases x@.len() - k,
    {
        if !same_bytes(x[k].as_slice(), y[k].as_slice()) {
            proof {
                let xs = all_bytes(x@);
                let ys = all_bytes(y@);
                assert(xs[k as int] != ys[k as int]);
                if xs.is_prefix_of(ys) {
                    assert(ys.subrange(0, xs.len() as int)[k as int] == ys[k as int]);
                }
            }
            return false;
        }
        k = k + 1;
    }
    assert(all_bytes(x@) =~= all_bytes(y@).subrange(0, x@.len() as int));
    assert(x@.len() == y@.len() ==> all_bytes(x@) =~= all_bytes(y@));
    true
}

/// The path below `base`, if `p` leads through it.
pub fn strip_base(p: &[u8], base: &[u8]) -> (r: Option<Vec<u8>>)
    ensures
        match r {
            Some(v) => below(p@, base@) == Some(v@),
            None => below(p@, base@) is None,
        },
{
    let x = component_names(base);
    let y = component_names(p);
    assert(names(base@).len() == x@.len() && names(p@).len() == y@.len());
    if x.len() > y.len() {
        return None;
    }
    if !starts_with_names(&y, &x) {
        return None;
    }
    Some(rest_from(p, x.len()))
}

/// The path from component `from` on.
pub fn rest_from(p: &[u8], from: usize) -> (r: Vec<u8>)
    requires
        from <= names(p@).len(),
    ensures
        r@ == stretch(p@, from as int, names(p@).len() as int),
{
    let v = find_components(p);
    proof {
        lemma_spans(p@, p@.len() as int);
        assert(components(p@).len() == v@.len());
    }
    if from == v.len() {
        return Vec::new();
    }
    let first = v[from];
    let last = v[v.len() - 1];
    assert(components(p@)[from as int] == (first.0 as int, first.1 as int));
    assert(components(p@)[v@.len() - 1] == (last.0 as int, last.1 as int));
    piece(p, first.0, last.1)
}

/// Appends `rest` to `base`; an absolute `rest` takes its place.
pub fn join(base: &[u8], rest: &[u8]) -> (r: Vec<u8>)
    ensures
        r@ == joined(base@, rest@),
{
    if rest.len() > 0 && rest[0] == SLASH {
        return copy_bytes(rest);
    }
    let mut r = copy_bytes(base);
    if base.len() > 0 && base[base.len() - 1] != SLASH {
        r.push(SLASH);
    }
    r.extend_from_slice(rest);
    assert(r@ =~= joined(base@, rest@));
    r
}

} // verus!
