//! IR camera frames and the checks around V4L2 capture.
//!
//! The device I/O itself (open, ioctl, mmap, poll) lives outside the
//! library; what it reports is checked and turned into frames here.
use vstd::prelude::*;
use crate::text::{
    chars_of, char_is_ascii_alphanumeric, is_ascii_alphanumeric, parse_u32, parse_u32_spec, string_of,
    trim, trim_chars,
};

verus! {

/// One greyscale frame. Samples are 8-bit sensor values widened to `u16`
/// by multiplying by 257.
pub struct IrFrame {
    pub data: Vec<u16>,
    pub width: u32,
    pub height: u32,
}

/// `v4l2_fourcc('G','R','E','Y')`: 8-bit greyscale, what IR sensors expose.
pub const V4L2_PIX_FMT_GREY: u32 = 0x5945_5247;

/// Largest frame side accepted from the driver.
pub const MAX_DIMENSION: u32 = 8192;

// ---------------------------------------------------------------------------
// Device names
// ---------------------------------------------------------------------------
/// What `str::to_lowercase` returns for a string (Unicode lowercase
/// mapping, which depends on nothing but the string).
pub uninterp spec fn spec_to_lowercase(s: Seq<char>) -> Seq<char>;

/// `str::to_lowercase`: the result is `spec_to_lowercase` of the argument.
#[verifier::external_body]
fn to_lowercase(s: &str) -> (r: String)
    ensures
        r@ == spec_to_lowercase(s@),
{
    s.to_lowercase()
}

pub open spec fn ir_word() -> Seq<char> {
    seq!['i', 'r']
}

pub open spec fn infrared_word() -> Seq<char> {
    seq!['i', 'n', 'f', 'r', 'a', 'r', 'e', 'd']
}

/// `s[i..j]` is a maximal run of ASCII alphanumerics: one of the pieces
/// `s.split(|c| !c.is_ascii_alphanumeric())` yields.
pub open spec fn is_word_at(s: Seq<char>, i: int, j: int) -> bool {
    &&& 0 <= i <= j <= s.len()
    &&& i == 0 || !is_ascii_alphanumeric(s[i - 1])
    &&& j == s.len() || !is_ascii_alphanumeric(s[j])
    &&& forall|k: int| i <= k < j ==> is_ascii_alphanumeric(#[trigger] s[k])
}

/// Some word of `s` (split on everything that is not an ASCII
/// alphanumeric) is exactly `ir` or `infrared`.
pub open spec fn has_ir_word(s: Seq<char>) -> bool {
    exists|i: int, j: int|
        #![trigger is_word_at(s, i, j)]
        is_word_at(s, i, j) && (s.subrange(i, j) == ir_word() || s.subrange(i, j)
            == infrared_word())
}

fn word_is_ir(s: &[char], a: usize, b: usize) -> (r: bool)
    requires
        a <= b <= s@.len(),
    ensures
        r == (s@.subrange(a as int, b as int) == ir_word() || s@.subrange(a as int, b as int)
            == infrared_word()),
{
    let ghost w = s@.subrange(a as int, b as int);
    if b - a == 2 {
        let r = s[a] == 'i' && s[a + 1] == 'r';
        proof {
            if r {
                assert(w =~= ir_word());
            } else {
                assert(w[0] == s@[a as int] && w[1] == s@[a + 1]);
            }
            assert(w.len() != infrared_word().len());
        }
        r
    } else if b - a == 8 {
        let r = s[a] == 'i' && s[a + 1] == 'n' && s[a + 2] == 'f' && s[a + 3] == 'r' && s[a + 4]
            == 'a' && s[a + 5] == 'r' && s[a + 6] == 'e' && s[a + 7] == 'd';
        proof {
            if r {
                assert(w =~= infrared_word());
            } else {
                assert(w[0] == s@[a as int] && w[1] == s@[a + 1] && w[2] == s@[a + 2] && w[3]
                    == s@[a + 3] && w[4] == s@[a + 4] && w[5] == s@[a + 5] && w[6] == s@[a + 6]
                    && w[7] == s@[a + 7]);
                assert(infrared_word()[0] == 'i' && infrared_word()[1] == 'n'
                    && infrared_word()[2] == 'f' && infrared_word()[3] == 'r'
                    && infrared_word()[4] == 'a' && infrared_word()[5] == 'r'
                    && infrared_word()[6] == 'e' && infrared_word()[7] == 'd');
            }
            assert(w.len() != ir_word().len());
        }
        r
    } else {
        assert(w.len() != ir_word().len() && w.len() != infrared_word().len());
        false
    }
}

fn has_ir_word_chars(s: &[char]) -> (r: bool)
    ensures
        r == has_ir_word(s@),
{
    let n = s.len();
    let mut i: usize = 0;
    while i < n
        invariant
            i <= n == s@.len(),
            i == 0 || i == n || !is_ascii_alphanumeric(s@[i - 1]) || !is_ascii_alphanumeric(
                s@[i as int],
            ),
            forall|a: int, b: int|
                #![trigger is_word_at(s@, a, b)]
                is_word_at(s@, a, b) && a < i ==> !(s@.subrange(a, b) == ir_word()
                    || s@.subrange(a, b) == infrared_word()),
        decreases n - i,
    {
        if !char_is_ascii_alphanumeric(s[i]) {
            proof {
                assert forall|a: int, b: int|
                    #![trigger is_word_at(s@, a, b)]
                    is_word_at(s@, a, b) && a < i + 1 implies !(s@.subrange(a, b) == ir_word()
                        || s@.subrange(a, b) == infrared_word()) by {
                    if a == i {
                        if b > a {
                            assert(is_ascii_alphanumeric(s@[a]));
                        } else {
                            assert(s@.subrange(a, b).len() == 0);
                        }
                    }
                }
            }
            i += 1;
        } else {
            let mut j = i;
            while j < n && char_is_ascii_alphanumeric(s[j])
                invariant
                    i <= j <= n == s@.len(),
                    forall|k: int| i <= k < j ==> is_ascii_alphanumeric(#[trigger] s@[k]),
                decreases n - j,
            {
                j += 1;
            }
            assert(is_word_at(s@, i as int, j as int));
            if word_is_ir(s, i, j) {
                return true;
            }
            proof {
                assert forall|a: int, b: int|
                    #![trigger is_word_at(s@, a, b)]
                    is_word_at(s@, a, b) && a < j implies !(s@.subrange(a, b) == ir_word()
                        || s@.subrange(a, b) == infrared_word()) by {
                    if i < a && a < j {
                        assert(is_ascii_alphanumeric(s@[a - 1]));
                    } else if a == i {
                        if b < j {
                            assert(is_ascii_alphanumeric(s@[b]));
                        } else if b > j {
                            assert(is_ascii_alphanumeric(s@[j as int]));
                        }
                    }
                }
            }
            i = j;
        }
    }
    assert forall|a: int, b: int|
        #![trigger is_word_at(s@, a, b)]
        is_word_at(s@, a, b) implies !(s@.subrange(a, b) == ir_word() || s@.subrange(a, b)
            == infrared_word()) by {
        if a == n {
            assert(s@.subrange(a, b).len() == 0);
        }
    }
    false
}

/// Whether an already-lowercased device name holds the word `ir` or
/// `infrared`, words being separated by anything that is not an ASCII
/// letter or digit.
pub fn lowercase_name_has_ir_word(lower: &str) -> (r: bool)
    ensures
        r == has_ir_word(lower@),
{
    let cs = chars_of(lower);
    has_ir_word_chars(cs.as_slice())
}

/// Does this V4L2 device name look like an IR sensor?
///
/// Matched on word boundaries rather than as a substring: "Virtual Camera"
/// and "BRIO" contain `ir` but are not IR sensors.
pub fn name_suggests_ir(name: &str) -> (r: bool)
    ensures
        r == has_ir_word(spec_to_lowercase(name@)),
{
    let lower = to_lowercase(name);
    lowercase_name_has_ir_word(lower.as_str())
}

/// What a sysfs `name` file says about its device: its trimmed contents
/// suggest an IR sensor.
pub fn sysfs_name_suggests_ir(raw: &str) -> (r: bool)
    ensures
        r == has_ir_word(spec_to_lowercase(trim(raw@))),
{
    let cs = chars_of(raw);
    let t = trim_chars(cs.as_slice());
    let s = string_of(t.as_slice());
    name_suggests_ir(s.as_str())
}


// ---------------------------------------------------------------------------
// Format and geometry reported by the driver
// ---------------------------------------------------------------------------
/// Why a device was refused as an IR capture source.
#[derive(Debug, Clone, Copy, PartialEq, Eq, Structural)]
pub enum FormatError {
    /// The driver reports a pixel format other than 8-bit GREY.
    NotGrey { pixelformat: u32 },
    /// Zero or larger than `MAX_DIMENSION` on a side.
    ImplausibleGeometry { width: u32, height: u32 },
}

pub open spec fn capture_format_spec(pixelformat: u32, width: u32, height: u32) -> Result<
    (),
    FormatError,
> {
    if pixelformat != V4L2_PIX_FMT_GREY {
        Err(FormatError::NotGrey { pixelformat })
    } else if width == 0 || height == 0 || width > MAX_DIMENSION || height > MAX_DIMENSION {
        Err(FormatError::ImplausibleGeometry { width, height })
    } else {
        Ok(())
    }
}

/// Validate what `VIDIOC_G_FMT` reported: raw 8-bit GREY, and each side
/// between 1 and `MAX_DIMENSION`.
pub fn check_capture_format(pixelformat: u32, width: u32, height: u32) -> (r: Result<
    (),
    FormatError,
>)
    ensures
        r == capture_format_spec(pixelformat, width, height),
{
    if pixelformat != V4L2_PIX_FMT_GREY {
        Err(FormatError::NotGrey { pixelformat })
    } else if width == 0 || height == 0 || width > MAX_DIMENSION || height > MAX_DIMENSION {
        Err(FormatError::ImplausibleGeometry { width, height })
    } else {
        Ok(())
    }
}

pub open spec fn fourcc_char(b: u8) -> char {
    if 0x21 <= b <= 0x7e {
        b as char
    } else {
        '?'
    }
}

/// The four characters of a fourcc code, lowest byte first, with anything
/// that is not a printable ASCII character shown as `?`.
pub open spec fn fourcc_spec(pf: u32) -> Seq<char> {
    seq![
        fourcc_char((pf % 256) as u8),
        fourcc_char(((pf / 256) % 256) as u8),
        fourcc_char(((pf / 65536) % 256) as u8),
        fourcc_char((pf / 16777216) as u8),
    ]
}

fn fourcc_char_of(b: u8) -> (c: char)
    ensures
        c == fourcc_char(b),
{
    if 0x21 <= b && b <= 0x7e {
        b as char
    } else {
        '?'
    }
}

/// A pixel format code as text, for error messages.
pub fn fourcc_string(pixelformat: u32) -> (s: String)
    ensures
        s@ == fourcc_spec(pixelformat),
{
    let v = vec![
        fourcc_char_of((pixelformat % 256) as u8),
        fourcc_char_of(((pixelformat / 256) % 256) as u8),
        fourcc_char_of(((pixelformat / 65536) % 256) as u8),
        fourcc_char_of((pixelformat / 16777216) as u8),
    ];
    let s = string_of(v.as_slice());
    assert(s@ =~= fourcc_spec(pixelformat));
    s
}

// ---------------------------------------------------------------------------
// Frames
// ---------------------------------------------------------------------------
/// Why a dequeued buffer did not become a frame.
#[derive(Debug, Clone, Copy, PartialEq, Eq, Structural)]
pub enum FrameError {
    /// Fewer samples than `width * height`.
    ShortFrame { got: usize, expected: u64 },
}

/// The samples of a dequeued buffer: the first `min(bytes_used, mapped.len())`
/// bytes, each widened to `u16` by multiplying by 257.
pub open spec fn buffer_samples(mapped: Seq<u8>, bytes_used: u32) -> Seq<u16> {
    let n = if bytes_used < mapped.len() {
        bytes_used as int
    } else {
        mapped.len() as int
    };
    Seq::new(n as nat, |i: int| (mapped[i] * 257) as u16)
}

/// Turn a dequeued buffer into a frame.
///
/// `bytes_used` comes from the driver and is not trusted to fit the mapping:
/// only the bytes that are really mapped are read. A buffer holding fewer
/// than `width * height` samples is refused.
pub fn frame_from_buffer(mapped: &[u8], bytes_used: u32, width: u32, height: u32) -> (r: Result<
    IrFrame,
    FrameError,
>)
    ensures
        match r {
            Ok(f) => {
                &&& f.data@ == buffer_samples(mapped@, bytes_used)
                &&& f.width == width && f.height == height
                &&& f.data@.len() >= width * height
            },
            Err(e) => {
                &&& buffer_samples(mapped@, bytes_used).len() < width * height
                &&& e == FrameError::ShortFrame {
                    got: buffer_samples(mapped@, bytes_used).len() as usize,
                    expected: (width * height) as u64,
                }
            },
        },
        r matches Ok(f) ==> forall|i: int|
            0 <= i < f.data@.len() ==> #[trigger] f.data@[i] % 257 == 0 && f.data@[i] / 257 < 256,
{
    let n: usize = if (bytes_used as usize) < mapped.len() {
        bytes_used as usize
    } else {
        mapped.len()
    };
    let mut data: Vec<u16> = Vec::with_capacity(n);
    let mut i: usize = 0;
    while i < n
        invariant
            i <= n <= mapped@.len(),
            n == buffer_samples(mapped@, bytes_used).len(),
            data@ == buffer_samples(mapped@, bytes_used).subrange(0, i as int),
        decreases n - i,
    {
        data.push(mapped[i] as u16 * 257);
        assert(buffer_samples(mapped@, bytes_used).subrange(0, i + 1) =~= buffer_samples(
            mapped@,
            bytes_used,
        ).subrange(0, i as int).push((mapped@[i as int] * 257) as u16));
        i += 1;
    }
    assert(data@ =~= buffer_samples(mapped@, bytes_used));
    proof {
        let w = width as int;
        let h = height as int;
        assert(w * h <= 0xffff_ffff * 0xffff_ffff) by (nonlinear_arith)
            requires
                0 <= w <= 0xffff_ffff,
                0 <= h <= 0xffff_ffff,
        ;
    }
    let expected: u64 = width as u64 * height as u64;
    if (n as u64) < expected {
        return Err(FrameError::ShortFrame { got: n, expected });
    }
    let f = IrFrame { data, width, height };
    assert forall|i: int| 0 <= i < f.data@.len() implies #[trigger] f.data@[i] % 257 == 0
        && f.data@[i] / 257 < 256 by {
        let b = mapped@[i];
        assert(f.data@[i] == b * 257);
    }
    Ok(f)
}

// ---------------------------------------------------------------------------
// Device paths
// ---------------------------------------------------------------------------
pub open spec fn dev_prefix() -> Seq<char> {
    seq!['/', 'd', 'e', 'v', '/']
}

pub open spec fn has_dotdot(s: Seq<char>) -> bool {
    exists|i: int| 0 <= i < s.len() - 1 && #[trigger] s[i] == '.' && s[i + 1] == '.'
}

/// The node name of a path that may name a capture device: the path must be
/// `/dev/<node>` with `node` non-empty, free of `/` and free of `..`.
pub open spec fn device_node_spec(path: Seq<char>) -> Option<Seq<char>> {
    if path.len() >= 5 && path.subrange(0, 5) == dev_prefix() {
        let node = path.subrange(5, path.len() as int);
        if node.len() == 0 || node.contains('/') || has_dotdot(node) {
            None
        } else {
            Some(node)
        }
    } else {
        None
    }
}

/// The `/dev/` node a setting names, if the path is of a shape that can only
/// name a device node directly under `/dev`.
pub fn device_node(path: &str) -> (r: Option<String>)
    ensures
        match r {
            Some(n) => device_node_spec(path@) == Some(n@),
            None => device_node_spec(path@) is None,
        },
{
    let p = chars_of(path);
    let n = p.len();
    if n < 5 || !(p[0] == '/' && p[1] == 'd' && p[2] == 'e' && p[3] == 'v' && p[4] == '/') {
        proof {
            if n >= 5 {
                let pre = path@.subrange(0, 5);
                if pre == dev_prefix() {
                    assert(pre[0] == p@[0] && pre[1] == p@[1] && pre[2] == p@[2] && pre[3] == p@[3]
                        && pre[4] == p@[4]);
                }
            }
        }
        return None;
    }
    assert(path@.subrange(0, 5) =~= dev_prefix());
    let ghost node = path@.subrange(5, n as int);
    if n == 5 {
        return None;
    }
    let mut i: usize = 5;
    while i < n
        invariant
            5 <= i <= n == p@.len(),
            p@ == path@,
            node == path@.subrange(5, n as int),
            forall|k: int| 5 <= k < i ==> p@[k] != '/',
            forall|k: int| 5 <= k < i - 1 ==> !(#[trigger] p@[k] == '.' && p@[k + 1] == '.'),
        decreases n - i,
    {
        if p[i] == '/' {
            assert(node[i - 5] == '/');
            return None;
        }
        if i > 5 && p[i - 1] == '.' && p[i] == '.' {
            assert(node[i - 6] == '.' && node[i - 5] == '.');
            return None;
        }
        i += 1;
    }
    assert(!node.contains('/')) by {
        if node.contains('/') {
            let k = choose|k: int| 0 <= k < node.len() && node[k] == '/';
            assert(p@[k + 5] == '/');
        }
    }
    assert(!has_dotdot(node)) by {
        if has_dotdot(node) {
            let k = choose|k: int| 0 <= k < node.len() - 1 && #[trigger] node[k] == '.' && node[k
                + 1] == '.';
            assert(p@[k + 5] == '.' && p@[k + 6] == '.');
        }
    }
    let v = crate::text::slice_chars(p.as_slice(), 5, n);
    Some(string_of(v.as_slice()))
}


// ---------------------------------------------------------------------------
// Choosing among IR cameras
// ---------------------------------------------------------------------------
pub open spec fn video_prefix() -> Seq<char> {
    seq!['/', 'd', 'e', 'v', '/', 'v', 'i', 'd', 'e', 'o']
}

/// `p.trim_start_matches("/dev/video")`: every leading repetition removed.
pub open spec fn strip_video_prefix(p: Seq<char>) -> Seq<char>
    decreases p.len(),
{
    if p.len() >= 10 && p.subrange(0, 10) == video_prefix() {
        strip_video_prefix(p.subrange(10, p.len() as int))
    } else {
        p
    }
}

/// The number of a `/dev/videoN` path; paths without one sort last.
pub open spec fn video_number(p: Seq<char>) -> u32 {
    match parse_u32_spec(strip_video_prefix(p)) {
        Some(n) => n,
        None => u32::MAX,
    }
}

/// Lexicographic order on characters (which for UTF-8 text is also the
/// byte order `String`'s `Ord` uses).
pub open spec fn chars_le(a: Seq<char>, b: Seq<char>) -> bool
    decreases a.len(),
{
    if a.len() == 0 {
        true
    } else if b.len() == 0 {
        false
    } else if a[0] != b[0] {
        a[0] < b[0]
    } else {
        chars_le(a.drop_first(), b.drop_first())
    }
}

/// Candidates are ordered by device number, then by path.
pub open spec fn candidate_le(x: (Seq<char>, Seq<char>), y: (Seq<char>, Seq<char>)) -> bool {
    ||| video_number(x.0) < video_number(y.0)
    ||| video_number(x.0) == video_number(y.0) && chars_le(x.0, y.0)
}

pub open spec fn candidates_sorted(s: Seq<(Seq<char>, Seq<char>)>) -> bool {
    forall|i: int| 0 <= i < s.len() - 1 ==> candidate_le(#[trigger] s[i], s[i + 1])
}

/// The first index at or after `i` whose candidate is not ordered at or
/// before `x` (or the length): where `x` goes so that it follows every
/// candidate it ties with.
pub open spec fn insertion_point(s: Seq<(Seq<char>, Seq<char>)>, x: (Seq<char>, Seq<char>), i: int) -> int
    decreases s.len() - i,
{
    if i >= s.len() {
        s.len() as int
    } else if !candidate_le(s[i], x) {
        i
    } else {
        insertion_point(s, x, i + 1)
    }
}

/// Stable insertion sort of candidates: equal keys keep their order.
pub open spec fn stable_sorted(s: Seq<(Seq<char>, Seq<char>)>) -> Seq<(Seq<char>, Seq<char>)>
    decreases s.len(),
{
    if s.len() == 0 {
        s
    } else {
        let t = stable_sorted(s.drop_last());
        t.insert(insertion_point(t, s.last(), 0), s.last())
    }
}

/// The candidate a `/sys/class/video4linux` entry contributes: its device
/// name and the raw contents of its `name` file become `(/dev/<device>,
/// trimmed name)` when the name suggests an IR sensor.
pub open spec fn candidate_of(entry: (Seq<char>, Seq<char>)) -> Option<(Seq<char>, Seq<char>)> {
    let name = trim(entry.1);
    if has_ir_word(spec_to_lowercase(name)) {
        Some((dev_prefix() + entry.0, name))
    } else {
        None
    }
}

/// The candidates of a list of entries, in listing order.
pub open spec fn candidates_of(entries: Seq<(Seq<char>, Seq<char>)>) -> Seq<
    (Seq<char>, Seq<char>),
>
    decreases entries.len(),
{
    if entries.len() == 0 {
        Seq::empty()
    } else {
        let init = candidates_of(entries.drop_last());
        match candidate_of(entries.last()) {
            Some(c) => init.push(c),
            None => init,
        }
    }
}

pub open spec fn pair_view(p: (String, String)) -> (Seq<char>, Seq<char>) {
    (p.0@, p.1@)
}

pub open spec fn pairs_view(v: Seq<(String, String)>) -> Seq<(Seq<char>, Seq<char>)> {
    v.map_values(|p: (String, String)| pair_view(p))
}

proof fn lemma_chars_le_total(a: Seq<char>, b: Seq<char>)
    ensures
        chars_le(a, b) || chars_le(b, a),
    decreases a.len(),
{
    if a.len() > 0 && b.len() > 0 && a[0] == b[0] {
        lemma_chars_le_total(a.drop_first(), b.drop_first());
    }
}

fn chars_le_exec(a: &[char], b: &[char]) -> (r: bool)
    ensures
        r == chars_le(a@, b@),
{
    let mut i: usize = 0;
    assert(a@.subrange(0, a@.len() as int) =~= a@);
    assert(b@.subrange(0, b@.len() as int) =~= b@);
    while i < a.len() && i < b.len() && a[i] == b[i]
        invariant
            i <= a@.len() && i <= b@.len(),
            forall|k: int| 0 <= k < i ==> a@[k] == b@[k],
            chars_le(a@, b@) == chars_le(a@.subrange(i as int, a@.len() as int), b@.subrange(
                i as int,
                b@.len() as int,
            )),
        decreases a@.len() - i,
    {
        let ghost sa = a@.subrange(i as int, a@.len() as int);
        let ghost sb = b@.subrange(i as int, b@.len() as int);
        assert(sa.drop_first() =~= a@.subrange(i + 1, a@.len() as int));
        assert(sb.drop_first() =~= b@.subrange(i + 1, b@.len() as int));
        i += 1;
    }
    let ghost sa = a@.subrange(i as int, a@.len() as int);
    let ghost sb = b@.subrange(i as int, b@.len() as int);
    if i == a.len() {
        true
    } else if i == b.len() {
        false
    } else {
        assert(sa[0] == a@[i as int] && sb[0] == b@[i as int]);
        a[i] < b[i]
    }
}

/// A candidate with its sort key worked out.
struct Ranked {
    number: u32,
    path: Vec<char>,
    name: Vec<char>,
}

spec fn ranked_view(r: Ranked) -> (Seq<char>, Seq<char>) {
    (r.path@, r.name@)
}

spec fn ranked_views(v: Seq<Ranked>) -> Seq<(Seq<char>, Seq<char>)> {
    v.map_values(|r: Ranked| ranked_view(r))
}

spec fn ranked_ok(v: Seq<Ranked>) -> bool {
    forall|i: int| 0 <= i < v.len() ==> #[trigger] v[i].number == video_number(v[i].path@)
}

fn video_number_of(p: &[char]) -> (n: u32)
    ensures
        n == video_number(p@),
{
    let mut start: usize = 0;
    assert(p@.subrange(0, p@.len() as int) =~= p@);
    while p.len() - start >= 10 && p[start] == '/' && p[start + 1] == 'd' && p[start + 2] == 'e'
        && p[start + 3] == 'v' && p[start + 4] == '/' && p[start + 5] == 'v' && p[start + 6] == 'i'
        && p[start + 7] == 'd' && p[start + 8] == 'e' && p[start + 9] == 'o'
        invariant
            start <= p@.len(),
            strip_video_prefix(p@) == strip_video_prefix(p@.subrange(start as int, p@.len() as int)),
        decreases p@.len() - start,
    {
        let ghost rest = p@.subrange(start as int, p@.len() as int);
        assert(rest.subrange(0, 10) =~= video_prefix());
        assert(rest.subrange(10, rest.len() as int) =~= p@.subrange(start + 10, p@.len() as int));
        start += 10;
    }
    let ghost rest = p@.subrange(start as int, p@.len() as int);
    proof {
        if rest.len() >= 10 && rest.subrange(0, 10) == video_prefix() {
            let pre = rest.subrange(0, 10);
            assert(pre[0] == p@[start as int] && pre[1] == p@[start + 1] && pre[2] == p@[start
                + 2] && pre[3] == p@[start + 3] && pre[4] == p@[start + 4] && pre[5] == p@[start
                + 5] && pre[6] == p@[start + 6] && pre[7] == p@[start + 7] && pre[8] == p@[start
                + 8] && pre[9] == p@[start + 9]);
        }
    }
    let tail = crate::text::slice_chars(p, start, p.len());
    match parse_u32(tail.as_slice()) {
        Some(n) => n,
        None => 0xffff_ffff,
    }
}

fn ranked_le(x: &Ranked, y: &Ranked) -> (r: bool)
    requires
        x.number == video_number(x.path@),
        y.number == video_number(y.path@),
    ensures
        r == candidate_le(ranked_view(*x), ranked_view(*y)),
{
    if x.number < y.number {
        true
    } else if x.number > y.number {
        false
    } else {
        chars_le_exec(x.path.as_slice(), y.path.as_slice())
    }
}

proof fn lemma_multiset_insert<A>(s: Seq<A>, i: int, x: A)
    requires
        0 <= i <= s.len(),
    ensures
        s.insert(i, x).to_multiset() =~= s.to_multiset().insert(x),
{
    broadcast use vstd::seq_lib::group_to_multiset_ensures;

    let t = s.insert(i, x);
    assert(t.remove(i) =~= s);
    assert(t[i] == x);
    assert(t.remove(i).to_multiset() =~= t.to_multiset().remove(x));
    assert(t.contains(x));
    assert(t.to_multiset().count(x) > 0);
}

proof fn lemma_insertion_point_step(s: Seq<(Seq<char>, Seq<char>)>, x: (Seq<char>, Seq<char>), i: int)
    requires
        0 <= i < s.len(),
        candidate_le(s[i], x),
    ensures
        insertion_point(s, x, i) == insertion_point(s, x, i + 1),
{
}

/// Insert a candidate after every candidate ordered at or before it.
fn insert_ranked(out: &mut Vec<Ranked>, item: Ranked)
    requires
        ranked_ok(old(out)@),
        candidates_sorted(ranked_views(old(out)@)),
        item.number == video_number(item.path@),
    ensures
        ranked_ok(final(out)@),
        candidates_sorted(ranked_views(final(out)@)),
        ranked_views(final(out)@) == ranked_views(old(out)@).insert(
            insertion_point(ranked_views(old(out)@), ranked_view(item), 0),
            ranked_view(item),
        ),
        ranked_views(final(out)@).to_multiset() == ranked_views(old(out)@).to_multiset().insert(
            ranked_view(item),
        ),
{
    let mut p: usize = 0;
    while p < out.len() && ranked_le(&out[p], &item)
        invariant
            p <= out@.len(),
            out@ == old(out)@,
            ranked_ok(out@),
            item.number == video_number(item.path@),
            p > 0 ==> candidate_le(ranked_view(out@[p - 1]), ranked_view(item)),
            insertion_point(ranked_views(out@), ranked_view(item), 0) == insertion_point(
                ranked_views(out@),
                ranked_view(item),
                p as int,
            ),
        decreases out@.len() - p,
    {
        proof {
            lemma_insertion_point_step(ranked_views(out@), ranked_view(item), p as int);
        }
        p += 1;
    }
    proof {
        let vs = ranked_views(out@);
        if p < out@.len() {
            assert(!candidate_le(vs[p as int], ranked_view(item)));
        }
        assert(insertion_point(vs, ranked_view(item), p as int) == p);
    }
    let ghost before = out@;
    proof {
        if p < out@.len() {
            lemma_chars_le_total(item.path@, out@[p as int].path@);
        }
    }
    let ghost iv = ranked_view(item);
    out.insert(p, item);
    proof {
        let vb = ranked_views(before);
        let va = ranked_views(out@);
        assert(va =~= vb.insert(p as int, iv));
        lemma_multiset_insert(vb, p as int, iv);
        assert forall|j: int| 0 <= j < va.len() - 1 implies candidate_le(
            #[trigger] va[j],
            va[j + 1],
        ) by {
            if j + 1 < p {
                assert(va[j] == vb[j] && va[j + 1] == vb[j + 1]);
            } else if j + 1 == p {
            } else if j == p {
            } else {
                assert(va[j] == vb[j - 1] && va[j + 1] == vb[j]);
            }
        }
        assert forall|j: int| 0 <= j < out@.len() implies #[trigger] out@[j].number
            == video_number(out@[j].path@) by {
            if j < p {
                assert(out@[j] == before[j]);
            } else if j > p {
                assert(out@[j] == before[j - 1]);
            }
        }
    }
}

/// Order IR camera candidates for use: from `(device name, raw name)` pairs
/// read from `/sys/class/video4linux`, keep those whose trimmed name
/// suggests an IR sensor as `(/dev/<device>, name)`, sorted by device
/// number (so `/dev/video9` comes before `/dev/video10`) and then by path.
pub fn rank_ir_candidates(entries: &Vec<(String, String)>) -> (r: Vec<(String, String)>)
    ensures
        candidates_sorted(pairs_view(r@)),
        pairs_view(r@).to_multiset() == candidates_of(pairs_view(entries@)).to_multiset(),
        pairs_view(r@) == stable_sorted(candidates_of(pairs_view(entries@))),
{
    let mut out: Vec<Ranked> = Vec::new();
    let mut i: usize = 0;
    proof {
        broadcast use vstd::seq_lib::group_to_multiset_ensures;

        assert(pairs_view(entries@).subrange(0, 0) =~= Seq::<(Seq<char>, Seq<char>)>::empty());
        assert(ranked_views(out@) =~= Seq::<(Seq<char>, Seq<char>)>::empty());
    }
    while i < entries.len()
        invariant
            i <= entries@.len(),
            ranked_ok(out@),
            candidates_sorted(ranked_views(out@)),
            ranked_views(out@).to_multiset() == candidates_of(
                pairs_view(entries@).subrange(0, i as int),
            ).to_multiset(),
            ranked_views(out@) == stable_sorted(
                candidates_of(pairs_view(entries@).subrange(0, i as int)),
            ),
        decreases entries@.len() - i,
    {
        let ghost prefix = pairs_view(entries@).subrange(0, i as int);
        let ghost next = pairs_view(entries@).subrange(0, i + 1);
        assert(next.drop_last() =~= prefix);
        assert(next.last() == pair_view(entries@[i as int]));
        let dev = chars_of(entries[i].0.as_str());
        let raw = chars_of(entries[i].1.as_str());
        let name = trim_chars(raw.as_slice());
        let name_s = string_of(name.as_slice());
        let ghost old_views = ranked_views(out@);
        assert(pair_view(entries@[i as int]) == (dev@, raw@));
        if name_suggests_ir(name_s.as_str()) {
            let mut path: Vec<char> = vec!['/', 'd', 'e', 'v', '/'];
            let mut k: usize = 0;
            while k < dev.len()
                invariant
                    k <= dev@.len(),
                    path@ == dev_prefix() + dev@.subrange(0, k as int),
                decreases dev@.len() - k,
            {
                path.push(dev[k]);
                assert(dev@.subrange(0, k + 1) =~= dev@.subrange(0, k as int).push(dev@[k as int]));
                k += 1;
            }
            assert(dev@.subrange(0, dev@.len() as int) =~= dev@);
            let number = video_number_of(path.as_slice());
            let item = Ranked { number, path, name };
            let ghost iv = ranked_view(item);
            insert_ranked(&mut out, item);
            proof {
                broadcast use vstd::seq_lib::group_to_multiset_ensures;

                assert(candidate_of(next.last()) == Some(iv));
                assert(candidates_of(next) == candidates_of(prefix).push(iv));
                let cn = candidates_of(next);
                assert(cn.drop_last() =~= candidates_of(prefix));
                assert(cn.last() == iv);
            }
        } else {
            assert(candidate_of(next.last()) is None);
            assert(candidates_of(next) == candidates_of(prefix));
        }
        i += 1;
    }
    assert(pairs_view(entries@).subrange(0, entries@.len() as int) =~= pairs_view(entries@));
    let mut r: Vec<(String, String)> = Vec::new();
    let mut j: usize = 0;
    while j < out.len()
        invariant
            j <= out@.len(),
            pairs_view(r@) == ranked_views(out@).subrange(0, j as int),
        decreases out@.len() - j,
    {
        let path = string_of(out[j].path.as_slice());
        let name = string_of(out[j].name.as_slice());
        let ghost old_r = r@;
        r.push((path, name));
        assert(pairs_view(r@) =~= pairs_view(old_r).push(ranked_view(out@[j as int])));
        assert(ranked_views(out@).subrange(0, j + 1) =~= ranked_views(out@).subrange(
            0,
            j as int,
        ).push(ranked_view(out@[j as int])));
        j += 1;
    }
    assert(ranked_views(out@).subrange(0, out@.len() as int) =~= ranked_views(out@));
    r
}

/// The camera to use when none is configured: the first of the ranked
/// candidates that opened as a capture device.
pub fn detect_ir_camera(cameras: &Vec<(String, String)>) -> (r: Option<String>)
    ensures
        match r {
            Some(p) => cameras@.len() > 0 && p@ == cameras@[0].0@,
            None => cameras@.len() == 0,
        },
{
    if cameras.len() == 0 {
        None
    } else {
        Some(cameras[0].0.clone())
    }
}

} // verus!
