use vstd::prelude::*;
use crate::frame::{Frame, FrameView, argb_color, fits};
use vstd::string::StringSliceAdditionalSpecFns;
use vstd::utf8::encode_utf8;

verus! {

/// One image of a window's icon list: its size, and where its ARGB pixels
/// start in the list.
pub ghost struct IconEntry {
    pub width: nat,
    pub height: nat,
    pub start: nat,
}

pub open spec fn area(e: IconEntry) -> nat {
    e.width * e.height
}

/// The images of an icon list from position `off` on: each is a width, a
/// height and then `width * height` pixels; the list ends where fewer than
/// two values or fewer pixels than announced remain.
pub open spec fn icon_entries(data: Seq<u32>, off: nat) -> Seq<IconEntry>
    decreases data.len() - off,
{
    if off + 2 > data.len() {
        Seq::empty()
    } else {
        let w = data[off as int] as nat;
        let h = data[off as int + 1] as nat;
        let n = w * h;
        if off + 2 + n > data.len() {
            Seq::empty()
        } else {
            seq![IconEntry { width: w, height: h, start: off + 2 }] + icon_entries(data, (off + 2 + n) as nat)
        }
    }
}

/// Index of the first of the largest images.
pub open spec fn best_icon(es: Seq<IconEntry>) -> int
    decreases es.len(),
{
    if es.len() <= 1 {
        0
    } else {
        let b = best_icon(es.drop_last());
        if area(es.last()) > area(es[b]) {
            es.len() - 1
        } else {
            b
        }
    }
}

/// `best_icon` picks an image of the largest area, and the first such.
pub proof fn lemma_best_icon(es: Seq<IconEntry>)
    requires
        es.len() > 0,
    ensures
        0 <= best_icon(es) < es.len(),
        forall|j: int| 0 <= j < es.len() ==> area(#[trigger] es[j]) <= area(es[best_icon(es)]),
        forall|j: int| 0 <= j < best_icon(es) ==> area(#[trigger] es[j]) < area(es[best_icon(es)]),
    decreases es.len(),
{
    if es.len() > 1 {
        let d = es.drop_last();
        lemma_best_icon(d);
        assert forall|j: int| 0 <= j < d.len() implies #[trigger] es[j] == d[j] by {}
    }
}

/// The frame an icon list stands for: its largest image (the first of
/// them on a tie), or none when the list holds no complete image or that
/// image is too large for a frame.
pub open spec fn icon_frame_ok(data: Seq<u32>, f: FrameView) -> bool {
    let es = icon_entries(data, 0);
    let b = es[best_icon(es)];
    &&& f.width == b.width
    &&& f.height == b.height
    &&& f.pixels.len() == b.width * b.height
    &&& forall|i: int| 0 <= i < f.pixels.len() ==> #[trigger] f.pixels[i] == argb_color(data[b.start + i])
}

pub open spec fn icon_available(data: Seq<u32>) -> bool {
    let es = icon_entries(data, 0);
    es.len() > 0 && fits(es[best_icon(es)].width as int, es[best_icon(es)].height as int)
}

/// Picks the largest image of a window's icon list (width, height, then
/// ARGB pixels, image after image) and makes a frame of it.
pub fn icon_from_argb_list(data: &[u32]) -> (r: Option<Frame>)
    ensures
        r is Some <==> icon_available(data@),
        r matches Some(f) ==> f.wf() && icon_frame_ok(data@, f@),
{
    let len = data.len();
    let mut off: usize = 0;
    let ghost mut found: Seq<IconEntry> = Seq::empty();
    let mut best: Option<(u64, u64, usize)> = None;
    loop
        invariant
            len == data@.len(),
            off <= len,
            icon_entries(data@, 0) == found + icon_entries(data@, off as nat),
            found.len() == 0 <==> best is None,
            best matches Some(b) ==> {
                let e = found[best_icon(found)];
                &&& b.0 == e.width
                &&& b.1 == e.height
                &&& b.0 <= u32::MAX
                &&& b.1 <= u32::MAX
                &&& b.2 == e.start
                &&& e.start + e.width * e.height <= len
            },
        ensures
            icon_entries(data@, 0) == found,
            found.len() == 0 <==> best is None,
            best matches Some(b) ==> {
                let e = found[best_icon(found)];
                &&& b.0 == e.width
                &&& b.1 == e.height
                &&& b.2 == e.start
                &&& b.0 <= u32::MAX
                &&& b.1 <= u32::MAX
                &&& e.start + e.width * e.height <= len
            },
        decreases len - off,
    {
        if len - off < 2 {
            assert(icon_entries(data@, off as nat) =~= Seq::<IconEntry>::empty());
            assert(icon_entries(data@, 0) =~= found);
            break;
        }
        let w = data[off] as u64;
        let h = data[off + 1] as u64;
        proof {
            assert(w * h <= 0xffff_ffff_ffff_ffffu64) by (nonlinear_arith)
                requires
                    w <= u32::MAX,
                    h <= u32::MAX,
            ;
        }
        let n: u64 = w * h;
        let rest = len - off - 2;
        if n > rest as u64 {
            assert(icon_entries(data@, off as nat) =~= Seq::<IconEntry>::empty());
            assert(icon_entries(data@, 0) =~= found);
            break;
        }
        let ghost e = IconEntry { width: w as nat, height: h as nat, start: (off + 2) as nat };
        let ghost prev = found;
        proof {
            assert(icon_entries(data@, off as nat) == seq![e] + icon_entries(data@, (off + 2 + n) as nat));
            found = found.push(e);
            assert(found + icon_entries(data@, (off + 2 + n) as nat) =~= prev + (seq![e] + icon_entries(data@, (off + 2 + n) as nat)));
            assert(found.drop_last() =~= prev);
            if prev.len() > 0 {
                lemma_best_icon(prev);
                assert(found[best_icon(prev)] == prev[best_icon(prev)]);
            }
        }
        match best {
            None => {
                best = Some((w, h, off + 2));
            },
            Some((bw, bh, bs)) => {
                if n > bw * bh {
                    best = Some((w, h, off + 2));
                }
            },
        }
        off = off + 2 + n as usize;
    }
    match best {
        None => None,
        Some((w, h, start)) => {
            proof {
                assert(w * h <= 0xffff_ffff_ffff_ffffu64) by (nonlinear_arith)
                    requires
                        w <= u32::MAX,
                        h <= u32::MAX,
                ;
                assert(4 * w * h == 4 * (w * h)) by (nonlinear_arith);
            }
            if w * h > 0x3fff_ffff {
                return None;
            }
            let n = (w * h) as usize;
            let pixels = vstd::slice::slice_subrange(data, start, start + n);
            let f = Frame::from_argb_u32(pixels, w as u32, h as u32);
            Some(f)
        },
    }
}


/// `s` in lower case, as `str::to_lowercase` gives it.
pub uninterp spec fn lower_of(s: Seq<char>) -> Seq<char>;

/// Relies on `str::to_lowercase`: the Unicode lower case of `s`, which
/// depends on `s` alone.
#[verifier::external_body]
fn lowercase(s: &str) -> (r: String)
    ensures
        r@ == lower_of(s@),
{
    s.to_lowercase()
}

/// Whether `needle` occurs in `hay` as a run of consecutive bytes.
pub open spec fn is_infix(hay: Seq<u8>, needle: Seq<u8>) -> bool {
    exists|i: int| 0 <= i && i + needle.len() <= hay.len() && #[trigger] hay.subrange(i, i + needle.len()) == needle
}

/// Whether `needle` occurs in `hay`.
pub fn contains_bytes(hay: &[u8], needle: &[u8]) -> (r: bool)
    ensures
        r == is_infix(hay@, needle@),
{
    let n = needle.len();
    let hl = hay.len();
    if n > hl {
        return false;
    }
    if n == 0 {
        assert(hay@.subrange(0, 0 + needle@.len() as int) =~= needle@);
        return true;
    }
    let last = hl - n;
    let mut i: usize = 0;
    while i <= last
        invariant
            n == needle@.len(),
            n > 0,
            hl == hay@.len(),
            last + n == hay@.len(),
            0 <= i <= last + 1,
            forall|k: int| 0 <= k < i ==> #[trigger] hay@.subrange(k, k + n) != needle@,
        decreases last + 1 - i,
    {
        let mut j: usize = 0;
        let mut same = true;
        while j < n
            invariant
                n == needle@.len(),
                hl == hay@.len(),
                last + n == hay@.len(),
                i <= last,
                0 <= j <= n,
                same == forall|m: int| 0 <= m < j ==> hay@[i + m] == needle@[m],
            decreases n - j,
        {
            if hay[i + j] != needle[j] {
                same = false;
            }
            j += 1;
        }
        if same {
            assert(hay@.subrange(i as int, i + n) =~= needle@);
            return true;
        }
        proof {
            let m = choose|m: int| 0 <= m < n && hay@[i + m] != needle@[m];
            assert(hay@.subrange(i as int, i + n)[m] != needle@[m]);
        }
        i += 1;
    }
    proof {
        assert forall|k: int| 0 <= k && k + n <= hay@.len() implies #[trigger] hay@.subrange(k, k + n) != needle@ by {
            assert(k < i);
        }
    }
    false
}

/// Whether an icon file named `file_name` is one for windows of class
/// `class`: the class occurs in the name, case ignored.
pub fn theme_icon_matches(file_name: &str, class: &str) -> (r: bool)
    ensures
        r == is_infix(encode_utf8(lower_of(file_name@)), encode_utf8(lower_of(class@))),
{
    let name = lowercase(file_name);
    let term = lowercase(class);
    contains_bytes(name.as_str().as_bytes(), term.as_str().as_bytes())
}

/// Of the best icon so far and a new candidate, the larger by area; the
/// earlier one on a tie.
pub fn keep_larger(best: Option<Frame>, candidate: Frame) -> (r: Frame)
    requires
        best matches Some(b) ==> b.wf(),
        candidate.wf(),
    ensures
        r.wf(),
        r@ == (match best {
            Some(b) => if candidate@.width * candidate@.height > b@.width * b@.height {
                candidate@
            } else {
                b@
            },
            None => candidate@,
        }),
{
    match best {
        Some(b) => {
            let (cw, ch) = (candidate.width() as u64, candidate.height() as u64);
            let (bw, bh) = (b.width() as u64, b.height() as u64);
            proof {
                assert(cw * ch <= u32::MAX * u32::MAX && bw * bh <= u32::MAX * u32::MAX) by (nonlinear_arith)
                    requires
                        cw <= u32::MAX,
                        ch <= u32::MAX,
                        bw <= u32::MAX,
                        bh <= u32::MAX,
                ;
            }
            if cw * ch > bw * bh {
                candidate
            } else {
                b
            }
        },
        None => candidate,
    }
}

} // verus!
