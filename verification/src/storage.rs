//! Saved pictures: the preview inside a raw file, and what to show of the last one.
use vstd::prelude::*;

use crate::jpeg::{header_reads, jpeg_header_reads, jpeg_header_size};
use crate::reply::{
    not_connected, reply, Answer, Reply, BAD_REQUEST, INTERNAL_SERVER_ERROR, NO_CONTENT,
    OK, SERVICE_UNAVAILABLE,
};
use crate::text::{ends_with_any_case, ends_with_ignore_case, is_trimmed, trim};

verus! {

/// Whether a JPEG start marker and the first byte of the next marker stand at `i`.
pub open spec fn opens_at(b: Seq<u8>, i: int) -> bool {
    0 <= i && i + 2 < b.len() && b[i] == 0xFF && b[i + 1] == 0xD8 && b[i + 2] == 0xFF
}

/// Whether a JPEG end marker stands at `j`.
pub open spec fn closes_at(b: Seq<u8>, j: int) -> bool {
    0 <= j && j + 1 < b.len() && b[j] == 0xFF && b[j + 1] == 0xD9
}

/// The place of the first end marker from `j` on.
pub open spec fn next_close(b: Seq<u8>, j: int) -> Option<int>
    decreases b.len() - j,
{
    if j + 1 >= b.len() {
        None
    } else if closes_at(b, j) {
        Some(j)
    } else {
        next_close(b, j + 1)
    }
}

/// The segments from `i` on, first and past-the-last byte of each: a start marker up to the
/// next end marker, then on behind it. A start that no end follows ends the search.
pub open spec fn segments(b: Seq<u8>, i: int) -> Seq<(int, int)>
    decreases b.len() - i,
{
    if i + 2 >= b.len() {
        Seq::empty()
    } else if opens_at(b, i) {
        proof {
            lemma_next_close(b, i + 2);
        }
        match next_close(b, i + 2) {
            None => Seq::empty(),
            Some(j) => seq![(i, j + 2)] + segments(b, j + 2),
        }
    } else {
        segments(b, i + 1)
    }
}

/// Whether segment `k` is the preview: its header reads, no other segment whose header
/// reads is longer, and none before it as long.
pub open spec fn is_preview(segs: Seq<(int, int)>, reads: Seq<bool>, k: int) -> bool {
    &&& 0 <= k < segs.len()
    &&& reads[k]
    &&& forall|m: int| #![trigger segs[m]]
        0 <= m < segs.len() && reads[m] ==> segs[m].1 - segs[m].0 <= segs[k].1 - segs[k].0 && (m < k
            ==> segs[m].1 - segs[m].0 < segs[k].1 - segs[k].0)
}

/// Of which segments the decoder reads the header.
pub open spec fn headers(b: Seq<u8>, segs: Seq<(int, int)>) -> Seq<bool> {
    Seq::new(segs.len(), |k: int| jpeg_header_reads(b.subrange(segs[k].0, segs[k].1)))
}

/// Whether `r` is the preview inside a file, if there is one.
pub open spec fn is_embedded(b: Seq<u8>, r: Option<Seq<u8>>) -> bool {
    let segs = segments(b, 0);
    let reads = headers(b, segs);
    match r {
        Some(v) => exists|k: int| #[trigger]
            is_preview(segs, reads, k) && v == b.subrange(segs[k].0, segs[k].1),
        None => forall|k: int| 0 <= k < segs.len() ==> !#[trigger] reads[k],
    }
}

/// The preview inside a file, if there is one.
pub open spec fn embedded(b: Seq<u8>) -> Option<Seq<u8>> {
    choose|r: Option<Seq<u8>>| is_embedded(b, r)
}

/// What an optional list of bytes holds.
pub open spec fn bytes_of(r: Option<Vec<u8>>) -> Option<Seq<u8>> {
    match r {
        Some(v) => Some(v@),
        None => None,
    }
}

/// The segments of a list, as numbers.
pub open spec fn spans(v: Seq<(usize, usize)>) -> Seq<(int, int)> {
    Seq::new(v.len(), |k: int| (v[k].0 as int, v[k].1 as int))
}

/// The first end marker from `j` on lies at `j` or behind it.
pub proof fn lemma_next_close(b: Seq<u8>, j: int)
    requires
        0 <= j,
    ensures
        next_close(b, j) matches Some(p) ==> j <= p && closes_at(b, p),
    decreases b.len() - j,
{
    if j + 1 < b.len() && !closes_at(b, j) {
        lemma_next_close(b, j + 1);
    }
}

/// The place of the first end marker from `j` on.
fn find_close(b: &[u8], j: usize) -> (r: Option<usize>)
    ensures
        match (r, next_close(b@, j as int)) {
            (Some(p), Some(q)) => p == q && j <= p && p + 1 < b@.len(),
            (None, None) => true,
            _ => false,
        },
{
    let n = b.len();
    let mut p: usize = j;
    while p < n && n - p > 1
        invariant
            n == b@.len(),
            j <= p,
            next_close(b@, p as int) == next_close(b@, j as int),
        decreases n - p,
    {
        if b[p] == 0xFF && b[p + 1] == 0xD9 {
            return Some(p);
        }
        p = p + 1;
    }
    None
}

/// The JPEG segments of a file.
pub fn find_segments(b: &[u8]) -> (r: Vec<(usize, usize)>)
    ensures
        spans(r@) == segments(b@, 0),
        forall|k: int| #![trigger r@[k]] 0 <= k < r@.len() ==> r@[k].0 <= r@[k].1 <= b@.len(),
{
    let n = b.len();
    let mut out: Vec<(usize, usize)> = Vec::new();
    let mut i: usize = 0;
    while i < n && n - i > 2
        invariant
            n == b@.len(),
            i <= n,
            spans(out@) + segments(b@, i as int) == segments(b@, 0),
            forall|k: int| #![trigger out@[k]]
                0 <= k < out@.len() ==> out@[k].0 <= out@[k].1 <= b@.len(),
        decreases n - i,
    {
        if b[i] == 0xFF && b[i + 1] == 0xD8 && b[i + 2] == 0xFF {
            match find_close(b, i + 2) {
                None => {
                    assert(spans(out@) + segments(b@, i as int) =~= spans(out@));
                    return out;
                },
                Some(j) => {
                    let ghost before = out@;
                    out.push((i, j + 2));
                    assert(spans(out@) =~= spans(before) + seq![(i as int, j + 2)]);
                    assert(spans(out@) + segments(b@, j + 2) =~= spans(before) + segments(
                        b@,
                        i as int,
                    ));
                    i = j + 2;
                },
            }
        } else {
            i = i + 1;
        }
    }
    assert(spans(out@) + segments(b@, i as int) =~= spans(out@));
    out
}

/// Which of the segments is the preview, given of which the header reads.
pub fn choose_segment(segs: &Vec<(usize, usize)>, reads: &Vec<bool>) -> (r: Option<usize>)
    requires
        segs@.len() == reads@.len(),
        forall|k: int| #![trigger segs@[k]] 0 <= k < segs@.len() ==> segs@[k].0 <= segs@[k].1,
    ensures
        match r {
            Some(k) => is_preview(spans(segs@), reads@, k as int),
            None => forall|k: int| 0 <= k < segs@.len() ==> !#[trigger] reads@[k],
        },
{
    let mut best: Option<usize> = None;
    let mut k: usize = 0;
    while k < segs.len()
        invariant
            k <= segs@.len(),
            segs@.len() == reads@.len(),
            forall|m: int| #![trigger segs@[m]] 0 <= m < segs@.len() ==> segs@[m].0 <= segs@[m].1,
            match best {
                None => forall|m: int| 0 <= m < k ==> !#[trigger] reads@[m],
                Some(p) => {
                    &&& p < k
                    &&& reads@[p as int]
                    &&& forall|m: int| #![trigger segs@[m]]
                        0 <= m < k && reads@[m] ==> segs@[m].1 - segs@[m].0 <= segs@[p as int].1
                            - segs@[p as int].0 && (m < p ==> segs@[m].1 - segs@[m].0
                            < segs@[p as int].1 - segs@[p as int].0)
                },
            },
        decreases segs.len() - k,
    {
        assert(segs@[k as int].0 <= segs@[k as int].1);
        let longer = match best {
            None => true,
            Some(p) => {
                assert(segs@[p as int].0 <= segs@[p as int].1);
                segs[k].1 - segs[k].0 > segs[p].1 - segs[p].0
            },
        };
        if reads[k] && longer {
            best = Some(k);
        }
        k = k + 1;
    }
    proof {
        if let Some(p) = best {
            assert forall|m: int| #![trigger spans(segs@)[m]]
                0 <= m < spans(segs@).len() && reads@[m] implies spans(segs@)[m].1 - spans(
                segs@,
            )[m].0 <= spans(segs@)[p as int].1 - spans(segs@)[p as int].0 && (m < p ==> spans(
                segs@,
            )[m].1 - spans(segs@)[m].0 < spans(segs@)[p as int].1 - spans(segs@)[p as int].0) by {
                assert(segs@[m].0 <= segs@[m].1);
            }
        }
    }
    best
}

/// The bytes `from..to` of a file.
fn cut(b: &[u8], from: usize, to: usize) -> (r: Vec<u8>)
    requires
        from <= to <= b@.len(),
    ensures
        r@ == b@.subrange(from as int, to as int),
{
    let mut r: Vec<u8> = Vec::new();
    let mut i: usize = from;
    while i < to
        invariant
            from <= i <= to <= b@.len(),
            r@ == b@.subrange(from as int, i as int),
        decreases to - i,
    {
        r.push(b[i]);
        i = i + 1;
        assert(r@ =~= b@.subrange(from as int, i as int));
    }
    r
}

/// The JPEG preview inside a raw file: the longest segment between a start and an end marker
/// whose header the decoder reads. Chance matches in the sensor data are passed over.
pub fn extract_embedded_jpeg(bytes: &[u8]) -> (r: Option<Vec<u8>>)
    ensures
        is_embedded(bytes@, bytes_of(r)),
        bytes_of(r) == embedded(bytes@),
{
    let segs = find_segments(bytes);
    let mut reads: Vec<bool> = Vec::new();
    let mut k: usize = 0;
    while k < segs.len()
        invariant
            k <= segs@.len(),
            reads@.len() == k,
            forall|m: int| #![trigger segs@[m]]
                0 <= m < segs@.len() ==> segs@[m].0 <= segs@[m].1 <= bytes@.len(),
            forall|m: int|
                0 <= m < k ==> #[trigger] reads@[m] == jpeg_header_reads(
                    bytes@.subrange(segs@[m].0 as int, segs@[m].1 as int),
                ),
        decreases segs.len() - k,
    {
        assert(segs@[k as int].0 <= segs@[k as int].1 <= bytes@.len());
        let seg = cut(bytes, segs[k].0, segs[k].1);
        reads.push(header_reads(seg.as_slice()));
        k = k + 1;
    }
    proof {
        assert(spans(segs@) == segments(bytes@, 0));
        assert(reads@ =~= headers(bytes@, spans(segs@)));
    }
    let r = match choose_segment(&segs, &reads) {
        Some(k) => {
            assert(segs@[k as int].0 <= segs@[k as int].1 <= bytes@.len());
            assert(spans(segs@)[k as int] == (segs@[k as int].0 as int, segs@[k as int].1 as int));
            Some(cut(bytes, segs[k].0, segs[k].1))
        },
        None => None,
    };
    proof {
        assert(is_embedded(bytes@, bytes_of(r)));
        law_preview_is_unique(bytes@, bytes_of(r), embedded(bytes@));
    }
    r
}

/// What a file is served as.
#[derive(Clone, Copy, Debug, PartialEq, Eq, Structural)]
pub enum ImageKind {
    /// A HEIF picture.
    Heif,
    /// A JPEG picture.
    Jpeg,
    /// Something that is not shown.
    Opaque,
}

impl ImageKind {
    /// The content type.
    pub open spec fn name(self) -> Seq<char> {
        match self {
            ImageKind::Heif => "image/heif"@,
            ImageKind::Jpeg => "image/jpeg"@,
            ImageKind::Opaque => "application/octet-stream"@,
        }
    }

    /// The content type.
    pub fn content_type(self) -> (r: String)
        ensures
            r@ == self.name(),
    {
        match self {
            ImageKind::Heif => "image/heif".to_string(),
            ImageKind::Jpeg => "image/jpeg".to_string(),
            ImageKind::Opaque => "application/octet-stream".to_string(),
        }
    }
}

/// What a file's name says it is: a picture that is shown as it stands, or none.
pub open spec fn kind_by_name(path: Seq<char>) -> ImageKind {
    if ends_with_any_case(path, ".heif"@) || ends_with_any_case(path, ".heic"@) {
        ImageKind::Heif
    } else if ends_with_any_case(path, ".jpg"@) || ends_with_any_case(path, ".jpeg"@) {
        ImageKind::Jpeg
    } else {
        ImageKind::Opaque
    }
}

/// What a file's name says it is.
pub fn classify(path: &str) -> (r: ImageKind)
    ensures
        r == kind_by_name(path@),
{
    if ends_with_ignore_case(path, ".heif") || ends_with_ignore_case(path, ".heic") {
        ImageKind::Heif
    } else if ends_with_ignore_case(path, ".jpg") || ends_with_ignore_case(path, ".jpeg") {
        ImageKind::Jpeg
    } else {
        ImageKind::Opaque
    }
}

/// A picture to show.
#[derive(Debug)]
pub struct Shown {
    /// What it is served as.
    pub kind: ImageKind,
    /// Its bytes.
    pub bytes: Vec<u8>,
}

/// Whether `r` shows a saved file: a HEIF or JPEG file as it stands, of any other the
/// preview inside, and the file itself where it holds none.
pub open spec fn shows(path: Seq<char>, bytes: Seq<u8>, r: Shown) -> bool {
    if kind_by_name(path) != ImageKind::Opaque {
        r.kind == kind_by_name(path) && r.bytes@ == bytes
    } else if r.kind == ImageKind::Jpeg {
        is_embedded(bytes, Some(r.bytes@))
    } else {
        r.kind == ImageKind::Opaque && r.bytes@ == bytes && is_embedded(bytes, None)
    }
}

/// What to show of a saved file.
pub fn last_image(path: &str, bytes: Vec<u8>) -> (r: Shown)
    ensures
        shows(path@, bytes@, r),
{
    match classify(path) {
        ImageKind::Opaque => {
            match extract_embedded_jpeg(bytes.as_slice()) {
                Some(jpeg) => Shown { kind: ImageKind::Jpeg, bytes: jpeg },
                None => Shown { kind: ImageKind::Opaque, bytes },
            }
        },
        kind => Shown { kind, bytes },
    }
}

/// Where pictures are to be saved, and how they are to be named.
#[derive(Debug)]
pub struct SaveTarget {
    /// The folder.
    pub dir: String,
    /// What file names begin with; nothing for the camera's own.
    pub prefix: String,
}

/// Reads a request to save into a folder: both texts without the space around them. There
/// has to be a camera, and the folder has to have a name.
pub fn save_target(connected: bool, path: &str, prefix: &str) -> (r: Result<SaveTarget, Reply>)
    ensures
        match r {
            Ok(t) => {
                &&& connected
                &&& is_trimmed(path@, t.dir@)
                &&& t.dir@.len() > 0
                &&& is_trimmed(prefix@, t.prefix@)
            },
            Err(e) => {
                ||| !connected && e@ == not_connected()
                ||| connected && is_trimmed(path@, Seq::<char>::empty()) && e@ == (Answer {
                    status: BAD_REQUEST,
                    text: "empty path"@,
                })
            },
        },
{
    if !connected {
        return Err(reply(SERVICE_UNAVAILABLE, "not connected"));
    }
    let dir = trim(path);
    if dir.as_str().unicode_len() == 0 {
        assert(dir@ =~= Seq::<char>::empty());
        return Err(reply(BAD_REQUEST, "empty path"));
    }
    Ok(SaveTarget { dir, prefix: trim(prefix) })
}

/// Takes in how setting the folder went: the folder is the new one only if it worked.
pub fn save_path_set(save_path: &mut String, result: Result<String, String>) -> (r: Reply)
    ensures
        match result {
            Ok(dir) => final(save_path)@ == dir@ && r@ == (Answer { status: OK, text: dir@ }),
            Err(e) => final(save_path)@ == old(save_path)@ && r@ == (Answer {
                status: INTERNAL_SERVER_ERROR,
                text: e@,
            }),
        },
{
    match result {
        Ok(dir) => {
            *save_path = dir.clone();
            Reply { status: OK, text: dir }
        },
        Err(e) => Reply { status: INTERNAL_SERVER_ERROR, text: e },
    }
}

/// The answer to a request to pick a folder, given what the dialogue printed: the folder
/// without the space around it, or nothing where none was picked.
pub fn picked_folder(printed: Option<&str>) -> (r: Reply)
    ensures
        match printed {
            Some(p) => {
                &&& r.status == OK || r.status == NO_CONTENT
                &&& is_trimmed(p@, r.text@)
                &&& (r.status == OK <==> r.text@.len() > 0)
            },
            None => r@ == (Answer { status: NO_CONTENT, text: Seq::empty() }),
        },
{
    match printed {
        Some(p) => {
            let t = trim(p);
            if t.as_str().unicode_len() == 0 {
                Reply { status: NO_CONTENT, text: t }
            } else {
                Reply { status: OK, text: t }
            }
        },
        None => {
            let r = String::new();
            assert(r@ =~= Seq::<char>::empty());
            Reply { status: NO_CONTENT, text: r }
        },
    }
}

/// The segments lie inside the file, one behind the other, each from a start marker to an
/// end marker.
proof fn lemma_segments(b: Seq<u8>, i: int, k: int)
    requires
        0 <= i,
        0 <= k < segments(b, i).len(),
    ensures
        ({
            let (s, e) = segments(b, i)[k];
            &&& i <= s
            &&& s + 4 <= e <= b.len()
            &&& opens_at(b, s)
            &&& closes_at(b, e - 2)
        }),
    decreases b.len() - i,
{
    if i + 2 >= b.len() {
    } else if opens_at(b, i) {
        lemma_next_close(b, i + 2);
        if let Some(j) = next_close(b, i + 2) {
            if k > 0 {
                lemma_segments(b, j + 2, k - 1);
                assert(segments(b, i)[k] == segments(b, j + 2)[k - 1]);
            } else {
                assert(segments(b, i)[0] == (i, j + 2));
            }
        }
    } else {
        lemma_segments(b, i + 1, k);
    }
}

/// A preview begins with a start marker, ends with an end marker, and is a piece of the
/// file whose header the decoder reads.
pub proof fn law_preview_is_a_whole_jpeg(b: Seq<u8>, v: Seq<u8>)
    requires
        is_embedded(b, Some(v)),
    ensures
        opens_at(v, 0),
        closes_at(v, v.len() - 2),
        jpeg_header_reads(v),
        exists|s: int, e: int| 0 <= s <= e <= b.len() && v == #[trigger] b.subrange(s, e),
{
    let segs = segments(b, 0);
    let reads = headers(b, segs);
    let k = choose|k: int| #[trigger]
        is_preview(segs, reads, k) && v == b.subrange(segs[k].0, segs[k].1);
    lemma_segments(b, 0, k);
    assert(v == b.subrange(segs[k].0, segs[k].1));
}

/// A file without a start marker holds no preview.
pub proof fn law_no_start_no_preview(b: Seq<u8>, r: Option<Seq<u8>>)
    requires
        forall|i: int| !#[trigger] opens_at(b, i),
        is_embedded(b, r),
    ensures
        r is None,
{
    if let Some(v) = r {
        let segs = segments(b, 0);
        let reads = headers(b, segs);
        let k = choose|k: int| #[trigger]
            is_preview(segs, reads, k) && v == b.subrange(segs[k].0, segs[k].1);
        lemma_segments(b, 0, k);
        assert(opens_at(b, segs[k].0));
    }
}

/// A start marker that no end marker follows yields no preview.
pub proof fn law_unclosed_start_no_preview(b: Seq<u8>, r: Option<Seq<u8>>)
    requires
        forall|j: int| !#[trigger] closes_at(b, j),
        is_embedded(b, r),
    ensures
        r is None,
{
    if let Some(v) = r {
        let segs = segments(b, 0);
        let reads = headers(b, segs);
        let k = choose|k: int| #[trigger]
            is_preview(segs, reads, k) && v == b.subrange(segs[k].0, segs[k].1);
        lemma_segments(b, 0, k);
        assert(closes_at(b, segs[k].1 - 2));
    }
}

/// There is one preview of a file.
pub proof fn law_preview_is_unique(b: Seq<u8>, r: Option<Seq<u8>>, q: Option<Seq<u8>>)
    requires
        is_embedded(b, r),
        is_embedded(b, q),
    ensures
        r == q,
{
    let segs = segments(b, 0);
    let reads = headers(b, segs);
    if let Some(v) = r {
        let k = choose|k: int| #[trigger]
            is_preview(segs, reads, k) && v == b.subrange(segs[k].0, segs[k].1);
        assert(reads[k]);
        if let Some(u) = q {
            let m = choose|m: int| #[trigger]
                is_preview(segs, reads, m) && u == b.subrange(segs[m].0, segs[m].1);
            assert(segs[k] == segs[k] && segs[m] == segs[m]);
            assert(k == m);
        }
    } else if let Some(u) = q {
        let m = choose|m: int| #[trigger]
            is_preview(segs, reads, m) && u == b.subrange(segs[m].0, segs[m].1);
        assert(reads[m]);
    }
}

/// Whether the three bytes at `i` can begin a picture.
pub open spec fn begins(b: Seq<u8>, i: int) -> bool {
    b[i] == 0xFF && b[i + 1] == 0xD8 && b[i + 2] == 0xFF
}

/// Whether the two bytes at `j` can end one.
pub open spec fn ends(b: Seq<u8>, j: int) -> bool {
    b[j] == 0xFF && b[j + 1] == 0xD9
}

/// Whether a picture lies from byte `s` up to byte `e`: it begins at `s`, and ends with the first
/// end behind that.
pub open spec fn is_picture(b: Seq<u8>, s: int, e: int) -> bool {
    &&& 0 <= s && s + 4 <= e <= b.len()
    &&& begins(b, s)
    &&& ends(b, e - 2)
    &&& forall|j: int| s + 2 <= j < e - 2 ==> !#[trigger] ends(b, j)
}

proof fn lemma_first_close(b: Seq<u8>, j: int)
    requires
        0 <= j,
    ensures
        match next_close(b, j) {
            Some(p) => j <= p && p + 1 < b.len() && ends(b, p) && forall|q: int|
                j <= q < p ==> !#[trigger] ends(b, q),
            None => forall|q: int| j <= q && q + 1 < b.len() ==> !#[trigger] ends(b, q),
        },
    decreases b.len() - j,
{
    if j + 1 < b.len() && !closes_at(b, j) {
        lemma_first_close(b, j + 1);
    }
}

/// Whether `segs` are the pictures in a file from byte `i` on, one behind the other, with nothing
/// left out.
pub open spec fn are_pictures(b: Seq<u8>, i: int, segs: Seq<(int, int)>) -> bool {
    &&& forall|k: int| 0 <= k < segs.len() ==> is_picture(b, (#[trigger] segs[k]).0, segs[k].1)
    &&& forall|k: int, m: int|
        0 <= k < m < segs.len() ==> (#[trigger] segs[k]).1 <= (#[trigger] segs[m]).0
    &&& forall|k: int| 0 <= k < segs.len() ==> i <= (#[trigger] segs[k]).0
    &&& forall|s: int|
        i <= s && s + 2 < b.len() && #[trigger] begins(b, s) ==> {
            ||| exists|k: int| 0 <= k < segs.len() && (#[trigger] segs[k]).0 <= s < segs[k].1
            ||| forall|j: int| s + 2 <= j && j + 1 < b.len() ==> !#[trigger] ends(b, j)
        }
}

proof fn lemma_are_pictures(b: Seq<u8>, i: int)
    requires
        0 <= i,
    ensures
        are_pictures(b, i, segments(b, i)),
    decreases b.len() - i,
{
    let segs = segments(b, i);
    if i + 2 < b.len() {
        if opens_at(b, i) {
            lemma_next_close(b, i + 2);
            lemma_first_close(b, i + 2);
            if let Some(j) = next_close(b, i + 2) {
                lemma_are_pictures(b, j + 2);
                let rest = segments(b, j + 2);
                assert(segs =~= seq![(i, j + 2)] + rest);
                assert forall|k: int| 0 <= k < segs.len() implies is_picture(
                    b,
                    (#[trigger] segs[k]).0,
                    segs[k].1,
                ) && i <= segs[k].0 by {
                    if k > 0 {
                        assert(segs[k] == rest[k - 1]);
                    }
                }
                assert forall|k: int, m: int| 0 <= k < m < segs.len() implies (#[trigger] segs[k]).1
                    <= (#[trigger] segs[m]).0 by {
                    assert(segs[m] == rest[m - 1]);
                    if k > 0 {
                        assert(segs[k] == rest[k - 1]);
                    }
                }
                assert forall|s: int|
                    i <= s && s + 2 < b.len() && #[trigger] begins(b, s) implies ({
                    ||| exists|k: int| 0 <= k < segs.len() && (#[trigger] segs[k]).0 <= s < segs[k].1
                    ||| forall|q: int| s + 2 <= q && q + 1 < b.len() ==> !#[trigger] ends(b, q)
                }) by {
                    if s < j + 2 {
                        assert(segs[0].0 <= s < segs[0].1);
                    } else if exists|k: int|
                        0 <= k < rest.len() && (#[trigger] rest[k]).0 <= s < rest[k].1 {
                        let k = choose|k: int|
                            0 <= k < rest.len() && (#[trigger] rest[k]).0 <= s < rest[k].1;
                        assert(segs[k + 1] == rest[k]);
                    }
                }
            }
        } else {
            lemma_are_pictures(b, i + 1);
            assert forall|s: int| i <= s && s + 2 < b.len() && #[trigger] begins(b, s) implies i + 1
                <= s by {}
        }
    }
}

/// The pictures in a file are found from its first byte to its last: each begins with a start,
/// ends with the next end, and none lies in another. No start is passed over that does not lie
/// in a picture, unless no end follows it.
pub proof fn law_pictures_are_found(b: Seq<u8>)
    ensures
        are_pictures(b, 0, segments(b, 0)),
{
    lemma_are_pictures(b, 0);
}

/// The preview is the longest picture in the file whose header reads, and the first of its length.
/// There is none only where no header reads.
pub proof fn law_preview_is_the_longest(b: Seq<u8>, r: Option<Seq<u8>>) -> (k: int)
    requires
        is_embedded(b, r),
    ensures
        ({
            let segs = segments(b, 0);
            &&& match r {
                Some(v) => {
                    &&& 0 <= k < segs.len()
                    &&& v == b.subrange(segs[k].0, segs[k].1)
                    &&& jpeg_header_size(v) is Some
                    &&& forall|m: int|
                        0 <= m < segs.len() && jpeg_header_size(
                            b.subrange((#[trigger] segs[m]).0, segs[m].1),
                        ) is Some ==> segs[m].1 - segs[m].0 <= v.len() && (m < k ==> segs[m].1
                            - segs[m].0 < v.len())
                },
                None => forall|m: int|
                    0 <= m < segs.len() ==> jpeg_header_size(
                        b.subrange((#[trigger] segs[m]).0, segs[m].1),
                    ) is None,
            }
        }),
{
    lemma_are_pictures(b, 0);
    let segs = segments(b, 0);
    let reads = headers(b, segs);
    assert forall|m: int| 0 <= m < segs.len() implies reads[m] == (jpeg_header_size(
        b.subrange((#[trigger] segs[m]).0, segs[m].1),
    ) is Some) by {}
    match r {
        Some(v) => {
            let k = choose|k: int| #[trigger]
                is_preview(segs, reads, k) && v == b.subrange(segs[k].0, segs[k].1);
            assert(reads[k] && is_picture(b, segs[k].0, segs[k].1));
            k
        },
        None => 0,
    }
}

/// A file with the name of a picture is shown as it is, under its kind; of any other file the
/// preview is shown if it has one, and else the file itself.
pub proof fn law_files_are_shown_by_name(path: Seq<char>, bytes: Seq<u8>, r: Shown)
    requires
        shows(path, bytes, r),
    ensures
        ({
            let heif = ends_with_any_case(path, ".heif"@) || ends_with_any_case(path, ".heic"@);
            let jpeg = ends_with_any_case(path, ".jpg"@) || ends_with_any_case(path, ".jpeg"@);
            if heif {
                r.kind == ImageKind::Heif && r.bytes@ == bytes
            } else if jpeg {
                r.kind == ImageKind::Jpeg && r.bytes@ == bytes
            } else {
                ||| r.kind == ImageKind::Jpeg && is_embedded(bytes, Some(r.bytes@))
                ||| r.kind == ImageKind::Opaque && r.bytes@ == bytes && is_embedded(bytes, None)
            }
        }),
{
}

} // verus!
