//! The marker segments of a JPEG file, and whether the decoder can count its blocks.
//!
//! The decoder counts rows and columns of eight pixels in sixteen bits. For a picture with a
//! side of over 65528 pixels that is enough, but for some scans of a single component.
use vstd::prelude::*;

verus! {

/// The greatest multiple of eight in sixteen bits.
pub const LAST_BLOCK: u16 = 65528;

/// Two bytes as a number, the greater first.
pub open spec fn two_bytes(b: Seq<u8>, i: int) -> int {
    256 * b[i] + b[i + 1]
}

/// The code of the next marker, from `i` on: behind a byte of all ones, and neither such a byte
/// nor nought itself.
pub open spec fn next_code(b: Seq<u8>, i: int) -> Option<int>
    decreases b.len() - i,
{
    if i + 1 >= b.len() {
        None
    } else if b[i] == 0xFF && b[i + 1] != 0 && b[i + 1] != 0xFF {
        Some(i + 1)
    } else {
        next_code(b, i + 1)
    }
}

/// The next marker lies ahead, and inside the file.
pub proof fn lemma_code_is_ahead(b: Seq<u8>, i: int)
    ensures
        next_code(b, i) matches Some(k) ==> i < k < b.len(),
    decreases b.len() - i,
{
    if i + 1 < b.len() {
        lemma_code_is_ahead(b, i + 1);
    }
}

/// Whether a marker is a restart, which stands alone inside a scan.
pub open spec fn is_restart(code: u8) -> bool {
    0xD0 <= code <= 0xD7
}

/// Whether a whole segment follows the marker at `k`: its length, and as many bytes as that
/// says.
pub open spec fn has_segment(b: Seq<u8>, k: int) -> bool {
    k + 2 < b.len() && two_bytes(b, k + 1) >= 2 && k + 1 + two_bytes(b, k + 1) <= b.len()
}

/// The markers that begin a segment, from `i` on, up to the end of the image or of the file.
/// What lies between segments is passed over.
pub open spec fn headers(b: Seq<u8>, i: int) -> Seq<int>
    decreases b.len() - i,
{
    match next_code(b, i) {
        None => Seq::empty(),
        Some(k) => {
            proof {
                lemma_code_is_ahead(b, i);
            }
            if is_restart(b[k]) {
                headers(b, k + 1)
            } else if b[k] == 0xD9 || !has_segment(b, k) {
                Seq::empty()
            } else {
                seq![k] + headers(b, k + 1 + two_bytes(b, k + 1))
            }
        },
    }
}

/// Whether a marker begins a frame that the decoder takes: sequential, progressive or lossless.
pub open spec fn is_frame(code: u8) -> bool {
    0xC0 <= code <= 0xC3
}

/// The first frame among the headers, from place `i` on.
pub open spec fn frame_from(b: Seq<u8>, hs: Seq<int>, i: int) -> Option<int>
    decreases hs.len() - i,
{
    if i < 0 || i >= hs.len() {
        None
    } else if is_frame(b[hs[i]]) {
        Some(hs[i])
    } else {
        frame_from(b, hs, i + 1)
    }
}

/// Whether the frame at `f` is as long as its number of components says.
pub open spec fn is_whole_frame(b: Seq<u8>, f: int) -> bool {
    two_bytes(b, f + 1) >= 8 && two_bytes(b, f + 1) == 8 + 3 * b[f + 8]
}

/// The place of a component in the frame at `f`, from `j` on, by its name.
pub open spec fn component(b: Seq<u8>, f: int, id: u8, j: int) -> Option<int>
    decreases b[f + 8] - j,
{
    if j < 0 || j >= b[f + 8] {
        None
    } else if b[f + 9 + 3 * j] == id {
        Some(j)
    } else {
        component(b, f, id, j + 1)
    }
}

/// How often a component is sampled across, in a unit of the frame at `f`.
pub open spec fn across(b: Seq<u8>, f: int, j: int) -> int {
    b[f + 10 + 3 * j] as int / 16
}

/// How often a component is sampled down, in a unit of the frame at `f`.
pub open spec fn down(b: Seq<u8>, f: int, j: int) -> int {
    b[f + 10 + 3 * j] as int % 16
}

/// The most that one of the first `n` components is sampled down.
pub open spec fn most_down(b: Seq<u8>, f: int, n: int) -> int
    decreases n,
{
    if n <= 0 {
        0
    } else {
        let m = most_down(b, f, n - 1);
        if down(b, f, n - 1) > m {
            down(b, f, n - 1)
        } else {
            m
        }
    }
}

/// Whether the scan at `s` is of this component, alone or among others.
pub open spec fn scan_lists(b: Seq<u8>, s: int, id: u8) -> bool {
    &&& b[s] == 0xDA
    &&& two_bytes(b, s + 1) >= 6
    &&& two_bytes(b, s + 1) == 6 + 2 * b[s + 3]
    &&& exists|j: int| 0 <= j < b[s + 3] && #[trigger] b[s + 4 + 2 * j] == id
}

/// Whether one of the first `n` headers is a scan of this component.
pub open spec fn listed_before(b: Seq<u8>, hs: Seq<int>, n: int, id: u8) -> bool {
    exists|m: int| 0 <= m < n && scan_lists(b, #[trigger] hs[m], id)
}

/// Whether the scan at `s` is of one component alone.
pub open spec fn is_single(b: Seq<u8>, s: int) -> bool {
    b[s] == 0xDA && two_bytes(b, s + 1) == 8 && b[s + 3] == 1
}

/// Whether header `i`, a scan of one component, can be the one that completes it: in a
/// sequential frame the first that has it, in a progressive one any of full precision.
pub open spec fn completes(b: Seq<u8>, hs: Seq<int>, f: int, i: int) -> bool {
    if b[f] == 0xC2 {
        b[hs[i] + 8] as int % 16 == 0
    } else {
        !listed_before(b, hs, i, b[hs[i] + 4])
    }
}

/// Whether the count of blocks runs over in header `i` of a picture of `w` by `h` pixels whose
/// frame is at `f`. Only a scan of one component is counted block by block. It has one block
/// more than fits where the component is sampled three times; and where it has as many rows as
/// the picture, the row behind the last is counted when it is complete.
pub open spec fn scan_overruns(b: Seq<u8>, hs: Seq<int>, f: int, i: int, w: int, h: int) -> bool {
    &&& is_single(b, hs[i])
    &&& match component(b, f, b[hs[i] + 4], 0) {
        None => false,
        Some(j) => {
            ||| w > LAST_BLOCK && across(b, f, j) == 3
            ||| h > LAST_BLOCK && down(b, f, j) == 3
            ||| h > LAST_BLOCK && down(b, f, j) == most_down(b, f, b[f + 8] as int) && completes(
                b,
                hs,
                f,
                i,
            )
        },
    }
}

/// Whether the decoder's count of blocks runs over in a file whose header says `w` by `h`
/// pixels, as far as its headers tell. A lossless frame is not counted in blocks.
pub open spec fn may_overrun(b: Seq<u8>, w: int, h: int) -> bool {
    let hs = headers(b, 2);
    &&& w > LAST_BLOCK || h > LAST_BLOCK
    &&& match frame_from(b, hs, 0) {
        None => false,
        Some(f) => is_whole_frame(b, f) && b[f] != 0xC3 && exists|i: int|
            0 <= i < hs.len() && #[trigger] scan_overruns(b, hs, f, i, w, h),
    }
}

/// Two bytes as a number, the greater first.
fn read_two(b: &[u8], i: usize) -> (r: usize)
    requires
        i + 1 < b@.len(),
    ensures
        r == two_bytes(b@, i as int),
        r <= 0xFFFF,
{
    256 * (b[i] as usize) + b[i + 1] as usize
}

/// The code of the next marker, from `i` on.
fn find_code(b: &[u8], i: usize) -> (r: Option<usize>)
    requires
        i <= b@.len(),
    ensures
        match r {
            Some(k) => next_code(b@, i as int) == Some(k as int) && i < k < b@.len(),
            None => next_code(b@, i as int) is None,
        },
{
    let n = b.len();
    let mut k: usize = i;
    while k < n && n - k >= 2
        invariant
            n == b@.len(),
            i <= k <= n,
            next_code(b@, k as int) == next_code(b@, i as int),
        decreases n - k,
    {
        if b[k] == 0xFF && b[k + 1] != 0 && b[k + 1] != 0xFF {
            return Some(k + 1);
        }
        k = k + 1;
    }
    None
}

/// The numbers of a list.
pub open spec fn whole(v: Seq<usize>) -> Seq<int> {
    v.map_values(|x: usize| x as int)
}

/// The markers that begin a segment.
fn find_headers(b: &[u8]) -> (r: Vec<usize>)
    ensures
        whole(r@) == headers(b@, 2),
        forall|i: int| 0 <= i < r@.len() ==> has_segment(b@, #[trigger] r@[i] as int),
{
    let mut hs: Vec<usize> = Vec::new();
    assert(whole(hs@) =~= Seq::empty());
    if b.len() < 2 {
        return hs;
    }
    let n = b.len();
    let mut i: usize = 2;
    assert(Seq::<int>::empty() + headers(b@, 2) =~= headers(b@, 2));
    loop
        invariant
            n == b@.len(),
            2 <= i <= n,
            whole(hs@) + headers(b@, i as int) == headers(b@, 2),
            forall|m: int| 0 <= m < hs@.len() ==> has_segment(b@, #[trigger] hs@[m] as int),
        ensures
            whole(hs@) == headers(b@, 2),
            forall|m: int| 0 <= m < hs@.len() ==> has_segment(b@, #[trigger] hs@[m] as int),
        decreases n - i,
    {
        match find_code(b, i) {
            None => {
                assert(whole(hs@) + Seq::<int>::empty() =~= whole(hs@));
                break;
            },
            Some(k) => {
                let code = b[k];
                if 0xD0 <= code && code <= 0xD7 {
                    i = k + 1;
                } else if code == 0xD9 || n - k <= 2 {
                    assert(whole(hs@) + Seq::<int>::empty() =~= whole(hs@));
                    break;
                } else {
                    let len = read_two(b, k + 1);
                    if len < 2 || len > n - k - 1 {
                        assert(whole(hs@) + Seq::<int>::empty() =~= whole(hs@));
                        break;
                    }
                    let ghost before = whole(hs@);
                    hs.push(k);
                    i = k + 1 + len;
                    proof {
                        let rest = headers(b@, i as int);
                        assert(whole(hs@) =~= before.push(k as int));
                        assert(before + (seq![k as int] + rest) =~= before.push(k as int) + rest);
                    }
                }
            },
        }
    }
    hs
}

/// The first frame among the headers.
fn find_frame(b: &[u8], hs: &Vec<usize>) -> (r: Option<usize>)
    requires
        forall|i: int| 0 <= i < hs@.len() ==> has_segment(b@, #[trigger] hs@[i] as int),
    ensures
        match r {
            Some(f) => frame_from(b@, whole(hs@), 0) == Some(f as int) && has_segment(b@, f as int),
            None => frame_from(b@, whole(hs@), 0) is None,
        },
{
    let mut i: usize = 0;
    while i < hs.len()
        invariant
            i <= hs@.len(),
            forall|m: int| 0 <= m < hs@.len() ==> has_segment(b@, #[trigger] hs@[m] as int),
            frame_from(b@, whole(hs@), i as int) == frame_from(b@, whole(hs@), 0),
        decreases hs.len() - i,
    {
        let k = hs[i];
        assert(has_segment(b@, hs@[i as int] as int));
        if 0xC0 <= b[k] && b[k] <= 0xC3 {
            return Some(k);
        }
        i = i + 1;
    }
    None
}

/// Whether the frame at `f` is as long as its number of components says.
fn whole_frame(b: &[u8], f: usize) -> (r: bool)
    requires
        has_segment(b@, f as int),
    ensures
        r == is_whole_frame(b@, f as int),
        r ==> f + 9 + 3 * b@[f + 8] <= b@.len(),
{
    assert(b@.len() == b.len());
    let len = read_two(b, f + 1);
    len >= 8 && len == 8 + 3 * (b[f + 8] as usize)
}

/// The place of a component in the frame at `f`, by its name.
fn find_component(b: &[u8], f: usize, id: u8) -> (r: Option<usize>)
    requires
        f + 9 + 3 * b@[f + 8] <= b@.len(),
    ensures
        match r {
            Some(j) => component(b@, f as int, id, 0) == Some(j as int) && j < b@[f + 8],
            None => component(b@, f as int, id, 0) is None,
        },
{
    assert(b@.len() == b.len());
    let n = b[f + 8] as usize;
    let mut j: usize = 0;
    while j < n
        invariant
            j <= n == b@[f + 8],
            f + 9 + 3 * n <= b@.len() == b.len(),
            component(b@, f as int, id, j as int) == component(b@, f as int, id, 0),
        decreases n - j,
    {
        if b[f + 9 + 3 * j] == id {
            return Some(j);
        }
        j = j + 1;
    }
    None
}

/// The most that a component of the frame at `f` is sampled down.
fn find_most_down(b: &[u8], f: usize) -> (r: u8)
    requires
        f + 9 + 3 * b@[f + 8] <= b@.len(),
    ensures
        r == most_down(b@, f as int, b@[f + 8] as int),
{
    assert(b@.len() == b.len());
    let n = b[f + 8] as usize;
    let mut m: u8 = 0;
    let mut j: usize = 0;
    while j < n
        invariant
            j <= n == b@[f + 8],
            f + 9 + 3 * n <= b@.len() == b.len(),
            m == most_down(b@, f as int, j as int),
        decreases n - j,
    {
        let d = b[f + 10 + 3 * j] % 16;
        if d > m {
            m = d;
        }
        j = j + 1;
    }
    m
}

/// Whether the scan at `s` is of this component.
fn lists(b: &[u8], s: usize, id: u8) -> (r: bool)
    requires
        has_segment(b@, s as int),
    ensures
        r == scan_lists(b@, s as int, id),
{
    assert(b@.len() == b.len());
    if b[s] != 0xDA {
        return false;
    }
    let len = read_two(b, s + 1);
    if len < 6 || len != 6 + 2 * (b[s + 3] as usize) {
        return false;
    }
    let n = b[s + 3] as usize;
    let mut j: usize = 0;
    while j < n
        invariant
            j <= n == b@[s + 3],
            b@[s as int] == 0xDA,
            two_bytes(b@, s + 1) == 6 + 2 * n,
            s + 4 + 2 * n <= b@.len() == b.len(),
            forall|m: int| 0 <= m < j ==> #[trigger] b@[s + 4 + 2 * m] != id,
        decreases n - j,
    {
        if b[s + 4 + 2 * j] == id {
            assert(b@[s + 4 + 2 * (j as int)] == id);
            return true;
        }
        j = j + 1;
    }
    false
}

/// Whether one of the first `n` headers is a scan of this component.
fn was_listed(b: &[u8], hs: &Vec<usize>, n: usize, id: u8) -> (r: bool)
    requires
        n <= hs@.len(),
        forall|i: int| 0 <= i < hs@.len() ==> has_segment(b@, #[trigger] hs@[i] as int),
    ensures
        r == listed_before(b@, whole(hs@), n as int, id),
{
    let mut m: usize = 0;
    while m < n
        invariant
            m <= n <= hs@.len(),
            forall|i: int| 0 <= i < hs@.len() ==> has_segment(b@, #[trigger] hs@[i] as int),
            forall|k: int| 0 <= k < m ==> !scan_lists(b@, #[trigger] whole(hs@)[k], id),
        decreases n - m,
    {
        assert(has_segment(b@, hs@[m as int] as int));
        if lists(b, hs[m], id) {
            assert(scan_lists(b@, whole(hs@)[m as int], id));
            return true;
        }
        m = m + 1;
    }
    false
}

/// Whether the count of blocks runs over in one of the headers.
fn overruns_at(b: &[u8], hs: &Vec<usize>, f: usize, i: usize, w: u16, h: u16) -> (r: bool)
    requires
        i < hs@.len(),
        f + 9 + 3 * b@[f + 8] <= b@.len(),
        forall|k: int| 0 <= k < hs@.len() ==> has_segment(b@, #[trigger] hs@[k] as int),
    ensures
        r == scan_overruns(b@, whole(hs@), f as int, i as int, w as int, h as int),
{
    assert(b@.len() == b.len());
    let s = hs[i];
    assert(whole(hs@)[i as int] == s);
    assert(has_segment(b@, hs@[i as int] as int));
    if b[s] != 0xDA || read_two(b, s + 1) != 8 || b[s + 3] != 1 {
        return false;
    }
    let id = b[s + 4];
    match find_component(b, f, id) {
        None => false,
        Some(j) => {
            let hf = b[f + 10 + 3 * j] / 16;
            let vf = b[f + 10 + 3 * j] % 16;
            if (w > LAST_BLOCK && hf == 3) || (h > LAST_BLOCK && vf == 3) {
                return true;
            }
            if h <= LAST_BLOCK || vf != find_most_down(b, f) {
                return false;
            }
            if b[f] == 0xC2 {
                b[s + 8] % 16 == 0
            } else {
                !was_listed(b, hs, i, id)
            }
        },
    }
}

/// Whether the decoder's count of blocks runs over in a file whose header says `w` by `h`
/// pixels.
pub fn overruns(b: &[u8], w: u16, h: u16) -> (r: bool)
    ensures
        r == may_overrun(b@, w as int, h as int),
{
    if w <= LAST_BLOCK && h <= LAST_BLOCK {
        return false;
    }
    let hs = find_headers(b);
    let f = match find_frame(b, &hs) {
        None => {
            return false;
        },
        Some(f) => f,
    };
    if !whole_frame(b, f) || b[f] == 0xC3 {
        return false;
    }
    let mut i: usize = 0;
    while i < hs.len()
        invariant
            i <= hs@.len(),
            w > LAST_BLOCK || h > LAST_BLOCK,
            whole(hs@) == headers(b@, 2),
            frame_from(b@, whole(hs@), 0) == Some(f as int),
            is_whole_frame(b@, f as int),
            b@[f as int] != 0xC3,
            f + 9 + 3 * b@[f + 8] <= b@.len(),
            forall|k: int| 0 <= k < hs@.len() ==> has_segment(b@, #[trigger] hs@[k] as int),
            forall|k: int|
                0 <= k < i ==> !#[trigger] scan_overruns(
                    b@,
                    whole(hs@),
                    f as int,
                    k,
                    w as int,
                    h as int,
                ),
        decreases hs.len() - i,
    {
        if overruns_at(b, &hs, f, i, w, h) {
            return true;
        }
        i = i + 1;
    }
    false
}

/// A picture whose sides are both at most 65528 pixels never runs over.
pub proof fn law_usual_sizes_do_not_overrun(b: Seq<u8>, w: int, h: int)
    requires
        w <= LAST_BLOCK,
        h <= LAST_BLOCK,
    ensures
        !may_overrun(b, w, h),
{
}

/// No picture runs over whose scans all hold two components or more.
pub proof fn law_interleaved_scans_do_not_overrun(b: Seq<u8>, w: int, h: int)
    requires
        forall|i: int| 0 <= i < headers(b, 2).len() ==> !is_single(b, #[trigger] headers(b, 2)[i]),
    ensures
        !may_overrun(b, w, h),
{
}

/// A tall picture of one component runs over where its frame is sequential and some scan is of
/// that component, the first of them.
pub proof fn law_tall_grey_pictures_overrun(b: Seq<u8>, w: int, h: int, f: int, i: int)
    requires
        h > 65528,
        0 <= i < headers(b, 2).len(),
        frame_from(b, headers(b, 2), 0) == Some(f),
        b[f] == 0xC0 || b[f] == 0xC1,
        b[f + 8] == 1,
        two_bytes(b, f + 1) == 11,
        ({
            let s = headers(b, 2)[i];
            b[s] == 0xDA && two_bytes(b, s + 1) == 8 && b[s + 3] == 1 && b[s + 4] == b[f + 9]
        }),
        forall|m: int| 0 <= m < i ==> b[#[trigger] headers(b, 2)[m]] != 0xDA,
    ensures
        may_overrun(b, w, h),
{
    let hs = headers(b, 2);
    assert(component(b, f, b[hs[i] + 4], 0) == Some(0int));
    assert(most_down(b, f, 0) == 0);
    assert(most_down(b, f, 1) == down(b, f, 0));
    assert(!listed_before(b, hs, i, b[hs[i] + 4]));
    assert(scan_overruns(b, hs, f, i, w, h));
}

/// A picture that is not tall runs over only where some component is sampled three times across.
pub proof fn law_wide_pictures_do_not_overrun(b: Seq<u8>, w: int, h: int)
    requires
        h <= 65528,
        frame_from(b, headers(b, 2), 0) matches Some(f) ==> forall|j: int|
            0 <= j < b[f + 8] ==> #[trigger] across(b, f, j) != 3,
    ensures
        !may_overrun(b, w, h),
{
    let hs = headers(b, 2);
    if let Some(f) = frame_from(b, hs, 0) {
        assert forall|i: int| 0 <= i < hs.len() implies !#[trigger] scan_overruns(
            b,
            hs,
            f,
            i,
            w,
            h,
        ) by {
            lemma_component(b, f, b[hs[i] + 4], 0);
        }
    }
}

proof fn lemma_component(b: Seq<u8>, f: int, id: u8, j: int)
    requires
        0 <= j,
    ensures
        component(b, f, id, j) matches Some(k) ==> j <= k < b[f + 8] && b[f + 9 + 3 * k] == id,
    decreases b[f + 8] - j,
{
    if j < b[f + 8] && b[f + 9 + 3 * j] != id {
        lemma_component(b, f, id, j + 1);
    }
}

} // verus!
