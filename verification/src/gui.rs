//! The decisions behind the settings panel: which helper command a button
//! runs and how its result is described, how one setting is rewritten in
//! the user's configuration file, and what the panel shows.
use vstd::prelude::*;
use crate::text::{
    append_chars, chars_of, find_char, find_from, i32_text, i32_to_text, is_whitespace, join_lines,
    join_lines_of, lacks, lemma_lines_of_joined, lemma_str_lines_lack_newline, lines_of,
    slice_chars, str_lines, string_of, strip_cr, trim, trim_bounds, trim_end, trim_start,
    trim_start_index,
};
use crate::user::seq_eq;

verus! {

/// Frames captured by the panel's enrol and improve buttons.
pub const ENROLL_FRAMES: usize = 5;

/// A privileged helper run through `pkexec`.
#[derive(Debug, Clone, Copy, PartialEq, Eq, Structural)]
pub enum PrivilegedAction {
    Enroll,
    Improve,
    Test,
}

pub open spec fn strings_view(v: Seq<String>) -> Seq<Seq<char>> {
    v.map_values(|s: String| s@)
}

/// The argument vector `pkexec` runs for an action on behalf of `user`.
pub open spec fn command_spec(a: PrivilegedAction, user: Seq<char>) -> Seq<Seq<char>> {
    match a {
        PrivilegedAction::Enroll => seq![
            "/usr/local/bin/face-enroll"@,
            "--user"@,
            user,
            "--frames"@,
            "5"@,
        ],
        PrivilegedAction::Improve => seq![
            "/usr/local/bin/face-enroll"@,
            "--user"@,
            user,
            "--frames"@,
            "5"@,
            "--improve"@,
        ],
        PrivilegedAction::Test => seq!["/usr/local/bin/face-auth"@, "--verify"@, user],
    }
}

/// The last line of some text, trimmed; empty when there is none.
pub open spec fn last_line_detail(s: Seq<char>) -> Seq<char> {
    let ls = str_lines(s);
    if ls.len() > 0 {
        trim(ls.last())
    } else {
        Seq::empty()
    }
}

/// What the panel says once a helper has exited with `code` (`None` when
/// it was killed by a signal) and printed `stderr`.
pub open spec fn describe_spec(a: PrivilegedAction, code: Option<i32>, stderr: Seq<char>) -> Seq<
    char,
> {
    let c: i32 = match code {
        Some(c) => c,
        None => -1i32,
    };
    if a == PrivilegedAction::Test && c == 0 {
        "Face matched"@
    } else if a == PrivilegedAction::Test && c == 1 {
        "No match — face not recognised"@
    } else if a == PrivilegedAction::Enroll && c == 0 {
        "Enrolled 5 frames"@
    } else if a == PrivilegedAction::Improve && c == 0 {
        "Added new captures"@
    } else if c == 126 {
        "Cancelled — administrator authentication required"@
    } else if c == 127 {
        "pkexec or the helper binary was not found"@
    } else if last_line_detail(stderr).len() == 0 {
        "Failed (exit "@ + i32_text(c) + ")"@
    } else {
        last_line_detail(stderr)
    }
}

/// Success is reported only for exit code 0 (and "no match" only for the
/// test helper's 1). Any other outcome of any helper, including being
/// killed by a signal, is described by what the helper last printed on
/// stderr, trimmed, or by "Failed (exit N)" when that is empty, apart from
/// `pkexec`'s own codes 126 and 127; the description does not depend on
/// which button was pressed.
pub proof fn lemma_failures_read_as_failures(
    a: PrivilegedAction,
    b: PrivilegedAction,
    code: Option<i32>,
    stderr: Seq<char>,
)
    requires
        code != Some(0i32),
        code != Some(126i32),
        code != Some(127i32),
        a != PrivilegedAction::Test || code != Some(1i32),
        b != PrivilegedAction::Test || code != Some(1i32),
    ensures
        describe_spec(a, code, stderr) == describe_spec(b, code, stderr),
        last_line_detail(stderr).len() > 0 ==> describe_spec(a, code, stderr) == last_line_detail(
            stderr,
        ),
        last_line_detail(stderr).len() == 0 ==> describe_spec(a, code, stderr) == "Failed (exit "@
            + i32_text(
            match code {
                Some(c) => c,
                None => -1i32,
            },
        ) + ")"@,
{
}

impl PrivilegedAction {
    /// The helper command line. Absolute paths, because `pkexec` resolves a
    /// bare name against the caller's `PATH`.
    pub fn command(self, user: &str) -> (r: Vec<String>)
        ensures
            strings_view(r@) == command_spec(self, user@),
    {
        let mut r: Vec<String> = Vec::new();
        match self {
            PrivilegedAction::Enroll => {
                r.push(String::from_str("/usr/local/bin/face-enroll"));
                r.push(String::from_str("--user"));
                r.push(String::from_str(user));
                r.push(String::from_str("--frames"));
                r.push(String::from_str("5"));
            },
            PrivilegedAction::Improve => {
                r.push(String::from_str("/usr/local/bin/face-enroll"));
                r.push(String::from_str("--user"));
                r.push(String::from_str(user));
                r.push(String::from_str("--frames"));
                r.push(String::from_str("5"));
                r.push(String::from_str("--improve"));
            },
            PrivilegedAction::Test => {
                r.push(String::from_str("/usr/local/bin/face-auth"));
                r.push(String::from_str("--verify"));
                r.push(String::from_str(user));
            },
        }
        assert(strings_view(r@) =~= command_spec(self, user@));
        r
    }

    /// The message shown for a finished helper: fixed texts for the known
    /// outcomes, otherwise the last line the helper printed on stderr, or
    /// the exit code when it printed nothing.
    pub fn describe(self, code: Option<i32>, stderr: &str) -> (r: String)
        ensures
            r@ == describe_spec(self, code, stderr@),
    {
        let c: i32 = match code {
            Some(c) => c,
            None => -1,
        };
        if self == PrivilegedAction::Test && c == 0 {
            return String::from_str("Face matched");
        }
        if self == PrivilegedAction::Test && c == 1 {
            return String::from_str("No match — face not recognised");
        }
        if self == PrivilegedAction::Enroll && c == 0 {
            return String::from_str("Enrolled 5 frames");
        }
        if self == PrivilegedAction::Improve && c == 0 {
            return String::from_str("Added new captures");
        }
        if c == 126 {
            return String::from_str("Cancelled — administrator authentication required");
        }
        if c == 127 {
            return String::from_str("pkexec or the helper binary was not found");
        }
        let cs = chars_of(stderr);
        let ls = lines_of(cs.as_slice());
        let detail: Vec<char> = if ls.len() > 0 {
            let last = &ls[ls.len() - 1];
            assert(ls.deep_view().last() == last@);
            let (a, b) = trim_bounds(last.as_slice());
            slice_chars(last.as_slice(), a, b)
        } else {
            Vec::new()
        };
        assert(detail@ == last_line_detail(stderr@));
        if detail.len() == 0 {
            let mut out = chars_of("Failed (exit ");
            let digits = i32_to_text(c);
            append_chars(&mut out, digits.as_slice());
            let close = chars_of(")");
            append_chars(&mut out, close.as_slice());
            string_of(out.as_slice())
        } else {
            string_of(detail.as_slice())
        }
    }
}

// ---------------------------------------------------------------------------
// The user's configuration file
// ---------------------------------------------------------------------------
/// Whether a line assigns exactly `key`: after leading whitespace it is not
/// a `#` comment, and the text before its first `=`, trimmed, is `key`.
pub open spec fn is_assignment_spec(line: Seq<char>, key: Seq<char>) -> bool {
    let t = trim_start(line);
    if t.len() > 0 && t[0] == '#' {
        false
    } else {
        let k = find_from(t, '=', 0);
        k < t.len() && trim(t.subrange(0, k)) == key
    }
}

fn is_assignment_chars(line: &[char], key: &[char]) -> (r: bool)
    ensures
        r == is_assignment_spec(line@, key@),
{
    let a = trim_start_index(line);
    let t = slice_chars(line, a, line.len());
    if t.len() > 0 && t[0] == '#' {
        return false;
    }
    let k = find_char(t.as_slice(), '=', 0);
    if k >= t.len() {
        return false;
    }
    let lhs = slice_chars(t.as_slice(), 0, k);
    let (x, y) = trim_bounds(lhs.as_slice());
    let name = slice_chars(lhs.as_slice(), x, y);
    seq_eq(name.as_slice(), key)
}

/// Does this line assign exactly `key`? `threshold` does not match
/// `detector_threshold = ...`, nor a commented-out `# threshold = ...`.
pub fn is_assignment_of(line: &str, key: &str) -> (r: bool)
    ensures
        r == is_assignment_spec(line@, key@),
{
    let l = chars_of(line);
    let k = chars_of(key);
    is_assignment_chars(l.as_slice(), k.as_slice())
}

/// The lines that do not assign `key`, in order.
pub open spec fn without_assignments(ls: Seq<Seq<char>>, key: Seq<char>) -> Seq<Seq<char>>
    decreases ls.len(),
{
    if ls.len() == 0 {
        Seq::empty()
    } else {
        let init = without_assignments(ls.drop_last(), key);
        if is_assignment_spec(ls.last(), key) {
            init
        } else {
            init.push(ls.last())
        }
    }
}

pub open spec fn setting_line(key: Seq<char>, value: Seq<char>) -> Seq<char> {
    key + " = "@ + value
}

/// The configuration text after setting `key` to `value`: every line that
/// does not assign `key` kept in order, then `key = value`, each line ended
/// by a newline.
pub open spec fn updated_setting_spec(existing: Seq<char>, key: Seq<char>, value: Seq<char>) -> Seq<
    char,
> {
    join_lines(without_assignments(str_lines(existing), key).push(setting_line(key, value))).push(
        '\n',
    )
}

/// Replace or insert a single top-level `key = value` line, preserving
/// everything else.
pub fn updated_setting_text(existing: &str, key: &str, value: &str) -> (r: String)
    ensures
        r@ == updated_setting_spec(existing@, key@, value@),
{
    let ex = chars_of(existing);
    let k = chars_of(key);
    let ls = lines_of(ex.as_slice());
    let ghost all = ls.deep_view();
    let mut kept: Vec<Vec<char>> = Vec::new();
    let mut i: usize = 0;
    assert(all.subrange(0, 0) =~= Seq::<Seq<char>>::empty());
    while i < ls.len()
        invariant
            i <= all.len(),
            all.len() == ls@.len(),
            all == ls.deep_view(),
            k@ == key@,
            kept.deep_view() == without_assignments(all.subrange(0, i as int), key@),
        decreases all.len() - i,
    {
        assert(all[i as int] == ls@[i as int]@);
        let ghost next = all.subrange(0, i + 1);
        assert(next.drop_last() =~= all.subrange(0, i as int));
        if !is_assignment_chars(ls[i].as_slice(), k.as_slice()) {
            let line = slice_chars(ls[i].as_slice(), 0, ls[i].len());
            assert(line@ =~= all[i as int]);
            let ghost before = kept.deep_view();
            assert(line.deep_view() =~= line@);
            kept.push(line);
            assert(kept.deep_view() =~= before.push(all[i as int]));
        }
        i += 1;
    }
    assert(all.subrange(0, all.len() as int) =~= all);
    let mut setting = chars_of(key);
    let sep = chars_of(" = ");
    append_chars(&mut setting, sep.as_slice());
    let v = chars_of(value);
    append_chars(&mut setting, v.as_slice());
    assert(setting@ =~= setting_line(key@, value@));
    let ghost before = kept.deep_view();
    assert(setting.deep_view() =~= setting@);
    kept.push(setting);
    assert(kept.deep_view() =~= before.push(setting_line(key@, value@)));
    let mut body = join_lines_of(&kept);
    body.push('\n');
    string_of(body.as_slice())
}

proof fn lemma_without_assignments(ls: Seq<Seq<char>>, key: Seq<char>)
    ensures
        forall|i: int|
            0 <= i < without_assignments(ls, key).len() ==> !is_assignment_spec(
                #[trigger] without_assignments(ls, key)[i],
                key,
            ) && ((forall|j: int| 0 <= j < ls.len() ==> lacks(#[trigger] ls[j], '\n')) ==> lacks(
                without_assignments(ls, key)[i],
                '\n',
            )),
    decreases ls.len(),
{
    if ls.len() > 0 {
        let init = ls.drop_last();
        lemma_without_assignments(init, key);
        let w = without_assignments(ls, key);
        let wi = without_assignments(init, key);
        assert forall|i: int| 0 <= i < w.len() implies !is_assignment_spec(#[trigger] w[i], key)
            && ((forall|j: int| 0 <= j < ls.len() ==> lacks(#[trigger] ls[j], '\n')) ==> lacks(
            w[i],
            '\n',
        )) by {
            if i < wi.len() {
                assert(w[i] == wi[i]);
                if forall|j: int| 0 <= j < ls.len() ==> lacks(#[trigger] ls[j], '\n') {
                    assert forall|j: int| 0 <= j < init.len() implies lacks(
                        #[trigger] init[j],
                        '\n',
                    ) by {
                        assert(init[j] == ls[j]);
                    }
                }
            } else {
                assert(w[i] == ls.last());
                if forall|j: int| 0 <= j < ls.len() ==> lacks(#[trigger] ls[j], '\n') {
                    assert(lacks(ls[ls.len() - 1], '\n'));
                }
            }
        }
    }
}

proof fn lemma_trim_start_push(m: Seq<char>, x: char)
    ensures
        trim_start(m).len() == 0 ==> trim_start(m.push(x)) == trim_start(seq![x]),
        trim_start(m).len() > 0 ==> trim_start(m.push(x)) == trim_start(m).push(x),
    decreases m.len(),
{
    if m.len() == 0 {
        assert(m.push(x) =~= seq![x]);
    } else if is_whitespace(m[0]) {
        assert(m.push(x).drop_first() =~= m.drop_first().push(x));
        lemma_trim_start_push(m.drop_first(), x);
    }
}

proof fn lemma_find_from_push(t: Seq<char>, c: char, x: char, i: int)
    requires
        0 <= i <= t.len(),
        x != c,
    ensures
        find_from(t.push(x), c, i) == if find_from(t, c, i) < t.len() {
            find_from(t, c, i)
        } else {
            t.len() + 1 as int
        },
        i <= find_from(t, c, i) <= t.len(),
    decreases t.len() - i,
{
    if i < t.len() {
        assert(t.push(x)[i] == t[i]);
        if t[i] != c {
            lemma_find_from_push(t, c, x, i + 1);
        }
    } else {
        assert(t.push(x)[i] == x);
        lemma_find_from_end(t.push(x), c, i + 1);
    }
}

proof fn lemma_find_from_end(t: Seq<char>, c: char, i: int)
    requires
        i >= t.len(),
    ensures
        find_from(t, c, i) == t.len(),
{
}

proof fn lemma_find_from_at(t: Seq<char>, c: char, i: int, k: int)
    requires
        0 <= i <= k < t.len(),
        t[k] == c,
        forall|j: int| i <= j < k ==> t[j] != c,
    ensures
        find_from(t, c, i) == k,
    decreases k - i,
{
    if i < k {
        lemma_find_from_at(t, c, i + 1, k);
    }
}

/// A trailing `'\r'` does not change whether a line assigns a key.
proof fn lemma_strip_cr_assignment(l: Seq<char>, key: Seq<char>)
    ensures
        is_assignment_spec(strip_cr(l), key) == is_assignment_spec(l, key),
{
    if l.len() > 0 && l.last() == '\r' {
        let m = l.drop_last();
        assert(m.push('\r') =~= l);
        assert(is_whitespace('\r'));
        lemma_trim_start_push(m, '\r');
        let tm = trim_start(m);
        if tm.len() == 0 {
            let one = seq!['\r'];
            assert(one[0] == '\r');
            assert(one.drop_first() =~= Seq::<char>::empty());
            assert(trim_start(one) == trim_start(one.drop_first()));
            assert(trim_start(Seq::<char>::empty()) == Seq::<char>::empty());
            assert(trim_start(l).len() == 0);
        } else {
            let tl = trim_start(l);
            assert(tl == tm.push('\r'));
            assert(tl[0] == tm[0]);
            lemma_find_from_push(tm, '=', '\r', 0);
            let k = find_from(tm, '=', 0);
            if k < tm.len() {
                assert(tl.subrange(0, k) =~= tm.subrange(0, k));
            }
        }
    }
}

/// `key = value` assigns `key` when `key` is already trimmed, holds no `=`
/// and does not start with `#`.
proof fn lemma_setting_line_assigns(key: Seq<char>, value: Seq<char>)
    requires
        trim(key) == key,
        lacks(key, '='),
        !(key.len() > 0 && key[0] == '#'),
    ensures
        is_assignment_spec(setting_line(key, value), key),
{
    reveal_strlit(" = ");
    let line = setting_line(key, value);
    assert(line.len() == key.len() + 3 + value.len());
    assert(line[key.len() as int] == ' ');
    assert(line[key.len() + 1int] == '=');
    if key.len() == 0 {
        assert(is_whitespace(line[0]));
        let d = line.drop_first();
        assert(d[0] == '=');
        assert(!is_whitespace('='));
        assert(trim_start(d) == d);
        assert(trim_start(line) == trim_start(d));
        let t = trim_start(line);
        assert(t == d);
        lemma_find_from_at(t, '=', 0, 0);
        assert(t.subrange(0, 0) =~= Seq::<char>::empty());
        assert(key =~= Seq::<char>::empty());
    } else {
        assert(line[0] == key[0]);
        assert(!is_whitespace(key[0])) by {
            if is_whitespace(key[0]) {
                assert(trim_start(key) == trim_start(key.drop_first()));
                lemma_trim_len(key.drop_first());
                assert(trim(key).len() < key.len());
            }
        }
        assert(trim_start(line) == line);
        assert forall|j: int| 0 <= j < key.len() + 1 implies line[j] != '=' by {
            if j < key.len() {
                assert(line[j] == key[j]);
            }
        }
        lemma_find_from_at(line, '=', 0, key.len() + 1int);
        let lhs = line.subrange(0, key.len() + 1int);
        assert(lhs =~= key.push(' '));
        assert(trim_start(key) == key);
        assert(trim_start(lhs) == lhs);
        assert(lhs.drop_last() =~= key);
        assert(trim_end(lhs) == trim_end(key));
        assert(trim_end(key) == key);
    }
}

proof fn lemma_trim_len(s: Seq<char>)
    ensures
        trim_end(trim_start(s)).len() <= s.len(),
        trim_start(s).len() <= s.len(),
{
    lemma_trim_start_len(s);
    lemma_trim_end_len(trim_start(s));
}

proof fn lemma_trim_start_len(s: Seq<char>)
    ensures
        trim_start(s).len() <= s.len(),
    decreases s.len(),
{
    if s.len() > 0 && is_whitespace(s[0]) {
        lemma_trim_start_len(s.drop_first());
    }
}

proof fn lemma_trim_end_len(s: Seq<char>)
    ensures
        trim_end(s).len() <= s.len(),
    decreases s.len(),
{
    if s.len() > 0 && is_whitespace(s.last()) {
        lemma_trim_end_len(s.drop_last());
    }
}

/// Setting a key leaves it assigned exactly once. Reading the rewritten
/// file back line by line gives the lines of the old file that did not
/// assign `key` (a line-final `'\r'` dropped), in order, then `key = value`;
/// that last line is the only one that assigns `key`. This needs a key that
/// can be assigned at all (trimmed, without `=`, not starting with `#`) and
/// that neither it nor the value contains a line break.
pub proof fn lemma_setting_assigned_once(existing: Seq<char>, key: Seq<char>, value: Seq<char>)
    requires
        trim(key) == key,
        lacks(key, '='),
        lacks(key, '\n'),
        !(key.len() > 0 && key[0] == '#'),
        lacks(value, '\n'),
    ensures
        ({
            let ls = str_lines(updated_setting_spec(existing, key, value));
            &&& ls == without_assignments(str_lines(existing), key).push(
                setting_line(key, value),
            ).map_values(|l: Seq<char>| strip_cr(l))
            &&& ls.len() >= 1
            &&& is_assignment_spec(ls.last(), key)
            &&& forall|i: int| 0 <= i < ls.len() - 1 ==> !is_assignment_spec(#[trigger] ls[i], key)
        }),
{
    let lines = str_lines(existing);
    let kept = without_assignments(lines, key);
    let line = setting_line(key, value);
    let all = kept.push(line);
    lemma_str_lines_lack_newline(existing);
    lemma_without_assignments(lines, key);
    assert(lacks(line, '\n')) by {
        reveal_strlit(" = ");
        assert forall|j: int| 0 <= j < line.len() implies line[j] != '\n' by {
            if j < key.len() {
                assert(line[j] == key[j]);
            } else if j >= key.len() + 3 {
                assert(line[j] == value[j - key.len() - 3]);
            }
        }
    }
    assert forall|i: int| 0 <= i < all.len() implies lacks(#[trigger] all[i], '\n') by {
        if i < kept.len() {
            assert(all[i] == kept[i]);
        }
    }
    lemma_lines_of_joined(all);
    let ls = str_lines(updated_setting_spec(existing, key, value));
    assert(ls == all.map_values(|l: Seq<char>| strip_cr(l)));
    lemma_setting_line_assigns(key, value);
    lemma_strip_cr_assignment(line, key);
    assert(ls.last() == strip_cr(line));
    assert forall|i: int| 0 <= i < ls.len() - 1 implies !is_assignment_spec(#[trigger] ls[i], key) by {
        assert(ls[i] == strip_cr(kept[i]));
        lemma_strip_cr_assignment(kept[i], key);
    }
}

// ---------------------------------------------------------------------------
// What the panel shows
// ---------------------------------------------------------------------------
/// The subtitle of the account row: whose face the buttons act on.
pub open spec fn account_subtitle_spec(username: Seq<char>) -> Seq<char> {
    if username.len() == 0 {
        "Unknown — enrolment and testing are disabled"@
    } else if username == "root"@ {
        username
            + " — this is probably not what you want; close this and run face-auth-gtk without sudo"@
    } else {
        username + " — Enroll, Improve and Test all apply to this account"@
    }
}

pub fn account_subtitle(username: &str) -> (r: String)
    ensures
        r@ == account_subtitle_spec(username@),
{
    let u = chars_of(username);
    if u.len() == 0 {
        return String::from_str("Unknown — enrolment and testing are disabled");
    }
    let root = chars_of("root");
    let mut out = chars_of(username);
    if seq_eq(u.as_slice(), root.as_slice()) {
        let tail = chars_of(
            " — this is probably not what you want; close this and run face-auth-gtk without sudo",
        );
        append_chars(&mut out, tail.as_slice());
    } else {
        let tail = chars_of(" — Enroll, Improve and Test all apply to this account");
        append_chars(&mut out, tail.as_slice());
    }
    string_of(out.as_slice())
}

/// The index of the first of `paths` equal to `current`, or `0`.
pub open spec fn device_index_spec(paths: Seq<Seq<char>>, current: Seq<char>) -> int {
    if exists|i: int| 0 <= i < paths.len() && paths[i] == current {
        choose|i: int|
            0 <= i < paths.len() && paths[i] == current && forall|j: int|
                0 <= j < i ==> paths[j] != current
    } else {
        0
    }
}

/// Which entry of the camera list to preselect: the configured device if
/// it is listed, else the first.
pub fn device_index(paths: &Vec<String>, current: &str) -> (r: usize)
    ensures
        r == device_index_spec(strings_view(paths@), current@),
{
    let cur = chars_of(current);
    let ghost ps = strings_view(paths@);
    let mut i: usize = 0;
    while i < paths.len()
        invariant
            i <= paths@.len(),
            ps == strings_view(paths@),
            cur@ == current@,
            forall|j: int| 0 <= j < i ==> ps[j] != current@,
        decreases paths@.len() - i,
    {
        let p = chars_of(paths[i].as_str());
        if seq_eq(p.as_slice(), cur.as_slice()) {
            assert(ps[i as int] == current@);
            let ghost c = choose|k: int|
                0 <= k < ps.len() && ps[k] == current@ && forall|j: int|
                    0 <= j < k ==> ps[j] != current@;
            assert(c == i) by {
                if c < i {
                    assert(ps[c] != current@);
                } else if c > i {
                    assert(ps[i as int] != current@);
                }
            }
            return i;
        }
        i += 1;
    }
    0
}

} // verus!
