//! User identity: username validation and `passwd` entry parsing.
//!
//! Usernames end up as path components under the embeddings directory, so
//! they are validated rather than trusted. Account lookups themselves run
//! `getent` (outside this crate); what it prints is interpreted here.
use vstd::prelude::*;
use vstd::string::StringSliceAdditionalSpecFns;
use crate::text::{
    is_ascii_alphanumeric,
    chars_of, first_line, first_line_of, parse_u32, parse_u32_spec, slice_chars, split_chars, split_on,
    string_of, trim, trim_chars,
};

verus! {

/// A resolved system account.
#[derive(Debug, Clone)]
pub struct UserInfo {
    /// Canonical account name as NSS reports it (never a UID string).
    pub name: String,
    pub uid: u32,
    pub home: String,
}

/// Why a username was refused.
#[derive(Debug, Clone, Copy, PartialEq, Eq, Structural)]
pub enum UsernameError {
    /// Empty, or longer than 32 bytes.
    BadLength,
    /// `.` or `..`.
    ReservedComponent,
    /// Starts with `-`, which a command would read as a flag.
    LeadingDash,
    /// Holds a byte outside `[A-Za-z0-9_.-]`.
    BadCharacter,
}

/// Why an account lookup result was refused.
#[derive(Debug, Clone, Copy, PartialEq, Eq, Structural)]
pub enum LookupError {
    /// The output held no line that parses as a `passwd` entry.
    Unparsable,
    /// The entry is for another name than the one asked for.
    NameMismatch,
}

pub open spec fn username_byte_ok(b: u8) -> bool {
    ||| 0x30 <= b <= 0x39
    ||| 0x41 <= b <= 0x5a
    ||| 0x61 <= b <= 0x7a
    ||| b == 0x5f
    ||| b == 0x2d
    ||| b == 0x2e
}

/// The first rule a name breaks, in the order they are checked; `None` when
/// the name is accepted. `chars` is the name and `bytes` its UTF-8 encoding.
pub open spec fn username_check(chars: Seq<char>, bytes: Seq<u8>) -> Option<UsernameError> {
    if chars.len() == 0 || bytes.len() > 32 {
        Some(UsernameError::BadLength)
    } else if chars == seq!['.'] || chars == seq!['.', '.'] {
        Some(UsernameError::ReservedComponent)
    } else if chars[0] == '-' {
        Some(UsernameError::LeadingDash)
    } else if !(forall|i: int| 0 <= i < bytes.len() ==> username_byte_ok(#[trigger] bytes[i])) {
        Some(UsernameError::BadCharacter)
    } else {
        None
    }
}

fn byte_ok(b: u8) -> (r: bool)
    ensures
        r == username_byte_ok(b),
{
    (0x30 <= b && b <= 0x39) || (0x41 <= b && b <= 0x5a) || (0x61 <= b && b <= 0x7a) || b == 0x5f
        || b == 0x2d || b == 0x2e
}

/// Reject anything that could escape the embeddings directory or confuse
/// path handling: accepted names are 1 to 32 bytes of `[A-Za-z0-9_.-]`, are
/// not `.` or `..`, and do not start with `-`.
pub fn validate_username(user: &str) -> (r: Result<&str, UsernameError>)
    ensures
        match r {
            Ok(u) => u@ == user@ && username_check(user@, user.spec_bytes()) is None,
            Err(e) => username_check(user@, user.spec_bytes()) == Some(e),
        },
{
    let bytes = user.as_bytes();
    if user.is_empty() || bytes.len() > 32 {
        return Err(UsernameError::BadLength);
    }
    let cs = chars_of(user);
    if (cs.len() == 1 && cs[0] == '.') || (cs.len() == 2 && cs[0] == '.' && cs[1] == '.') {
        proof {
            if cs.len() == 1 {
                assert(user@ =~= seq!['.']);
            } else {
                assert(user@ =~= seq!['.', '.']);
            }
        }
        return Err(UsernameError::ReservedComponent);
    }
    assert(user@ != seq!['.']) by {
        if user@ == seq!['.'] {
            assert(cs@.len() == 1 && cs@[0] == '.');
        }
    }
    assert(user@ != seq!['.', '.']) by {
        if user@ == seq!['.', '.'] {
            assert(cs@.len() == 2 && cs@[0] == '.' && cs@[1] == '.');
        }
    }
    if cs[0] == '-' {
        return Err(UsernameError::LeadingDash);
    }
    let mut i: usize = 0;
    while i < bytes.len()
        invariant
            i <= bytes@.len(),
            bytes@ == user.spec_bytes(),
            user@.len() > 0 && bytes@.len() <= 32,
            user@ != seq!['.'] && user@ != seq!['.', '.'],
            user@[0] != '-',
            forall|k: int| 0 <= k < i ==> username_byte_ok(#[trigger] bytes@[k]),
        decreases bytes@.len() - i,
    {
        if !byte_ok(bytes[i]) {
            assert(!username_byte_ok(user.spec_bytes()[i as int]));
            return Err(UsernameError::BadCharacter);
        }
        i += 1;
    }
    Ok(user)
}

/// A name that passes validation is one plain path component: it is not
/// empty, not `.` or `..`, holds no `/` or NUL byte, and does not begin
/// with `-`.
pub proof fn lemma_valid_username_is_plain_component(chars: Seq<char>, bytes: Seq<u8>)
    requires
        username_check(chars, bytes) is None,
    ensures
        chars.len() >= 1,
        bytes.len() <= 32,
        chars != seq!['.'] && chars != seq!['.', '.'],
        chars[0] != '-',
        forall|i: int| 0 <= i < bytes.len() ==> bytes[i] != 0x2f && bytes[i] != 0,
{
    assert forall|i: int| 0 <= i < bytes.len() implies bytes[i] != 0x2f && bytes[i] != 0 by {
        assert(username_byte_ok(bytes[i]));
    }
}

proof fn lemma_ascii_bytes_ascii_chars(chars: Seq<char>)
    requires
        forall|i: int|
            0 <= i < vstd::utf8::encode_utf8(chars).len() ==> #[trigger] vstd::utf8::encode_utf8(
                chars,
            )[i] < 0x80,
    ensures
        vstd::utf8::encode_utf8(chars).len() == chars.len(),
        forall|i: int|
            0 <= i < chars.len() ==> (#[trigger] chars[i] as u32) < 0x80
                && vstd::utf8::encode_utf8(chars)[i] == (chars[i] as u32) as u8,
    decreases chars.len(),
{
    if chars.len() > 0 {
        let c0 = chars[0] as u32;
        let rest = chars.drop_first();
        let head = vstd::utf8::encode_scalar(c0);
        let all = vstd::utf8::encode_utf8(chars);
        assert(all == head + vstd::utf8::encode_utf8(rest));
        assert(head.len() >= 1);
        assert(all[0] == head[0]);
        if c0 >= 0x80 {
            assert(0xC0 | ((c0 >> 6) & 0x1F) as u8 >= 0x80) by (bit_vector);
            assert(0xE0 | ((c0 >> 12) & 0x0F) as u8 >= 0x80) by (bit_vector);
            assert(0xF0 | ((c0 >> 18) & 0x7) as u8 >= 0x80) by (bit_vector);
            assert(head[0] >= 0x80);
            assert(false);
        }
        assert((c0 & 0x7F) as u8 == c0 as u8) by (bit_vector)
            requires
                c0 < 0x80,
        ;
        assert(head =~= seq![c0 as u8]);
        assert forall|i: int|
            0 <= i < vstd::utf8::encode_utf8(rest).len() implies #[trigger] vstd::utf8::encode_utf8(
            rest,
        )[i] < 0x80 by {
            assert(vstd::utf8::encode_utf8(rest)[i] == all[i + 1]);
        }
        lemma_ascii_bytes_ascii_chars(rest);
        assert forall|i: int| 0 <= i < chars.len() implies (#[trigger] chars[i] as u32) < 0x80
            && all[i] == (chars[i] as u32) as u8 by {
            if i > 0 {
                assert(chars[i] == rest[i - 1]);
                assert(all[i] == vstd::utf8::encode_utf8(rest)[i - 1]);
            }
        }
    }
}

/// A name that passes validation, read as characters, is one plain path
/// component: 1 to 32 ASCII characters from `[A-Za-z0-9_.-]`, not `.` or
/// `..`, not starting with `-`; in particular it holds no `/` and no NUL.
pub proof fn lemma_valid_name_chars(name: Seq<char>)
    requires
        username_check(name, vstd::utf8::encode_utf8(name)) is None,
    ensures
        1 <= name.len() <= 32,
        name != seq!['.'] && name != seq!['.', '.'],
        name[0] != '-',
        forall|i: int|
            0 <= i < name.len() ==> username_byte_ok((#[trigger] name[i] as u32) as u8)
                && name[i] != '/' && name[i] != '\0',
{
    let bytes = vstd::utf8::encode_utf8(name);
    assert forall|i: int| 0 <= i < bytes.len() implies #[trigger] bytes[i] < 0x80 by {
        assert(username_byte_ok(bytes[i]));
    }
    lemma_ascii_bytes_ascii_chars(name);
    assert forall|i: int| 0 <= i < name.len() implies username_byte_ok(
        (#[trigger] name[i] as u32) as u8,
    ) && name[i] != '/' && name[i] != '\0' by {
        assert(bytes[i] == (name[i] as u32) as u8);
        assert(username_byte_ok(bytes[i]));
        assert(('/' as u32) == 0x2f);
        assert(('\0' as u32) == 0);
    }
}

// ---------------------------------------------------------------------------
// passwd entries
// ---------------------------------------------------------------------------
/// `s.trim_end_matches('\n')`.
pub open spec fn trim_end_newlines(s: Seq<char>) -> Seq<char>
    decreases s.len(),
{
    if s.len() > 0 && s.last() == '\n' {
        trim_end_newlines(s.drop_last())
    } else {
        s
    }
}

/// The fields of a `name:passwd:uid:gid:gecos:home:shell` line.
pub open spec fn passwd_fields(line: Seq<char>) -> Seq<Seq<char>> {
    split_on(trim_end_newlines(line), ':')
}

/// What a `passwd` line parses to: `(name, uid, home)` when it has at least
/// six fields and its third field is a `u32`.
pub open spec fn parse_passwd_spec(line: Seq<char>) -> Option<(Seq<char>, u32, Seq<char>)> {
    let f = passwd_fields(line);
    if f.len() < 6 {
        None
    } else {
        match parse_u32_spec(f[2]) {
            Some(uid) => Some((f[0], uid, f[5])),
            None => None,
        }
    }
}

pub open spec fn info_matches(info: UserInfo, v: (Seq<char>, u32, Seq<char>)) -> bool {
    info.name@ == v.0 && info.uid == v.1 && info.home@ == v.2
}

proof fn lemma_trim_end_newlines_to(s: Seq<char>, j: int)
    requires
        0 <= j <= s.len(),
        forall|k: int| j <= k < s.len() ==> #[trigger] s[k] == '\n',
        j == 0 || s[j - 1] != '\n',
    ensures
        trim_end_newlines(s) == s.subrange(0, j),
    decreases s.len() - j,
{
    if j == s.len() {
        assert(s.subrange(0, j) =~= s);
    } else {
        let t = s.drop_last();
        assert forall|k: int| j <= k < t.len() implies #[trigger] t[k] == '\n' by {
            assert(t[k] == s[k]);
        }
        lemma_trim_end_newlines_to(t, j);
        assert(t.subrange(0, j) =~= s.subrange(0, j));
    }
}

fn parse_passwd_chars(line: &[char]) -> (r: Option<UserInfo>)
    ensures
        match r {
            Some(info) => parse_passwd_spec(line@) matches Some(v) && info_matches(info, v),
            None => parse_passwd_spec(line@) is None,
        },
{
    let mut end = line.len();
    while end > 0 && line[end - 1] == '\n'
        invariant
            end <= line@.len(),
            forall|k: int| end <= k < line@.len() ==> #[trigger] line@[k] == '\n',
        decreases end,
    {
        end -= 1;
    }
    proof {
        lemma_trim_end_newlines_to(line@, end as int);
    }
    let body = slice_chars(line, 0, end);
    let parts = split_chars(body.as_slice(), ':');
    if parts.len() < 6 {
        return None;
    }
    assert(parts.deep_view()[2] == parts[2]@);
    let uid = match parse_u32(parts[2].as_slice()) {
        Some(u) => u,
        None => return None,
    };
    assert(parts.deep_view()[0] == parts[0]@);
    assert(parts.deep_view()[5] == parts[5]@);
    Some(UserInfo { name: string_of(parts[0].as_slice()), uid, home: string_of(parts[5].as_slice()) })
}

/// Parse one `name:passwd:uid:gid:gecos:home:shell` line.
pub fn parse_passwd_line(line: &str) -> (r: Option<UserInfo>)
    ensures
        match r {
            Some(info) => parse_passwd_spec(line@) matches Some(v) && info_matches(info, v),
            None => parse_passwd_spec(line@) is None,
        },
{
    let cs = chars_of(line);
    parse_passwd_chars(cs.as_slice())
}

/// The entry `getent passwd` printed: its first line, parsed.
pub open spec fn getent_entry_spec(stdout: Seq<char>) -> Option<(Seq<char>, u32, Seq<char>)> {
    match first_line(stdout) {
        Some(l) => parse_passwd_spec(l),
        None => None,
    }
}

/// Interpret what a successful `getent passwd <uid>` printed.
pub fn entry_from_getent(stdout: &str) -> (r: Option<UserInfo>)
    ensures
        match r {
            Some(info) => getent_entry_spec(stdout@) matches Some(v) && info_matches(info, v),
            None => getent_entry_spec(stdout@) is None,
        },
{
    let cs = chars_of(stdout);
    match first_line_of(cs.as_slice()) {
        Some(l) => parse_passwd_chars(l.as_slice()),
        None => None,
    }
}

/// Interpret what a successful `getent passwd <name>` printed for `user`.
///
/// `getent` also accepts a numeric UID, and `getent passwd 0` resolves to
/// root: the name that comes back must be the name that was asked for.
pub fn lookup_entry(user: &str, stdout: &str) -> (r: Result<UserInfo, LookupError>)
    ensures
        match getent_entry_spec(stdout@) {
            None => r == Err::<UserInfo, LookupError>(LookupError::Unparsable),
            Some(v) => if v.0 == user@ {
                r matches Ok(info) && info_matches(info, v)
            } else {
                r == Err::<UserInfo, LookupError>(LookupError::NameMismatch)
            },
        },
        r matches Ok(info) ==> info.name@ == user@,
{
    match entry_from_getent(stdout) {
        None => Err(LookupError::Unparsable),
        Some(info) => {
            let a = chars_of(info.name.as_str());
            let b = chars_of(user);
            if seq_eq(a.as_slice(), b.as_slice()) {
                Ok(info)
            } else {
                Err(LookupError::NameMismatch)
            }
        },
    }
}

/// Whether two character slices are equal.
pub fn seq_eq(a: &[char], b: &[char]) -> (r: bool)
    ensures
        r == (a@ == b@),
{
    if a.len() != b.len() {
        return false;
    }
    let mut i: usize = 0;
    while i < a.len()
        invariant
            i <= a@.len() == b@.len(),
            forall|k: int| 0 <= k < i ==> a@[k] == b@[k],
        decreases a@.len() - i,
    {
        if a[i] != b[i] {
            return false;
        }
        i += 1;
    }
    assert(a@ =~= b@);
    true
}

/// The characters a username may use: ASCII letters of either case,
/// digits, `_`, `-` and `.`.
pub open spec fn username_char(c: char) -> bool {
    is_ascii_alphanumeric(c) || c == '_' || c == '-' || c == '.'
}

/// Exactly the names of 1 to 32 characters from `[A-Za-z0-9_.-]`, other
/// than `.` and `..` and not starting with `-`, pass validation (a valid
/// name is ASCII, so its length in bytes is its length in characters).
pub proof fn lemma_username_accepts_exactly_the_portable_names(name: Seq<char>)
    ensures
        username_check(name, vstd::utf8::encode_utf8(name)) is None <==> {
            &&& 1 <= name.len() <= 32
            &&& name != seq!['.'] && name != seq!['.', '.']
            &&& name[0] != '-'
            &&& forall|i: int| 0 <= i < name.len() ==> username_char(#[trigger] name[i])
        },
{
    let bytes = vstd::utf8::encode_utf8(name);
    if username_check(name, bytes) is None {
        lemma_valid_name_chars(name);
        lemma_ascii_bytes_ascii_chars(name);
        assert forall|i: int| 0 <= i < name.len() implies username_char(#[trigger] name[i]) by {
            let c = name[i];
            let u = c as u32;
            assert(username_byte_ok(u as u8));
            assert(u < 0x80);
            vstd::utf8::char_u32_cast(c, u);
            assert((u as u8) as u32 == u) by (bit_vector)
                requires
                    u < 0x80,
            ;
            if 0x30 <= u <= 0x39 {
                assert('0' <= c <= '9');
            } else if 0x41 <= u <= 0x5a {
                assert('A' <= c <= 'Z');
            } else if 0x61 <= u <= 0x7a {
                assert('a' <= c <= 'z');
            } else if u == 0x5f {
                assert(c == '_');
            } else if u == 0x2d {
                assert(c == '-');
            } else {
                assert(u == 0x2e);
                assert(c == '.');
            }
        }
    }
    if {
        &&& 1 <= name.len() <= 32
        &&& name != seq!['.'] && name != seq!['.', '.']
        &&& name[0] != '-'
        &&& forall|i: int| 0 <= i < name.len() ==> username_char(#[trigger] name[i])
    } {
        assert(vstd::utf8::is_ascii_chars(name)) by {
            assert forall|i: int| 0 <= i < name.len() implies '\0' <= #[trigger] name[i]
                <= '\u{7f}' by {
                assert(username_char(name[i]));
            }
        }
        vstd::utf8::is_ascii_chars_encode_utf8(name);
        assert forall|i: int| 0 <= i < bytes.len() implies username_byte_ok(#[trigger] bytes[i]) by {
            let c = name[i];
            assert(username_char(c));
            assert(bytes[i] == c as u8);
        }
    }
}

/// The UID an environment value such as `SUDO_UID` names, if it names
/// someone other than root: the value, trimmed, must parse as a non-zero
/// `u32`.
pub open spec fn env_uid(raw: Seq<char>) -> Option<u32> {
    match parse_u32_spec(trim(raw)) {
        Some(u) => if u != 0 {
            Some(u)
        } else {
            None
        },
        None => None,
    }
}

/// The UID recorded in `SUDO_UID` or `PKEXEC_UID`, if it names someone other
/// than root: the value, trimmed, must parse as a non-zero `u32`.
pub fn invoking_uid(raw: &str) -> (r: Option<u32>)
    ensures
        r == env_uid(raw@),
{
    let cs = chars_of(raw);
    let t = trim_chars(cs.as_slice());
    match parse_u32(t.as_slice()) {
        Some(u) => if u != 0 {
            Some(u)
        } else {
            None
        },
        None => None,
    }
}

pub open spec fn opt_str_view(o: Option<&str>) -> Option<Seq<char>> {
    match o {
        Some(s) => Some(s@),
        None => None,
    }
}

/// The UID an environment variable contributes, as a sequence of zero or
/// one UIDs: nothing when it is unset or names no one but root.
pub open spec fn env_uids(raw: Option<Seq<char>>) -> Seq<u32> {
    match raw {
        Some(r) => match env_uid(r) {
            Some(u) => seq![u],
            None => Seq::empty(),
        },
        None => Seq::empty(),
    }
}

/// The UIDs to resolve, in order, to find the human behind a session:
/// `SUDO_UID`, then `PKEXEC_UID` (each only when it names someone other than
/// root), then the real UID of the process. The first that resolves to an
/// account is the invoking user.
pub open spec fn invoking_order(sudo_uid: Option<Seq<char>>, pkexec_uid: Option<Seq<char>>, real_uid: u32) -> Seq<u32> {
    env_uids(sudo_uid) + env_uids(pkexec_uid) + seq![real_uid]
}

fn push_env_uid(out: &mut Vec<u32>, raw: Option<&str>)
    ensures
        final(out)@ == old(out)@ + env_uids(opt_str_view(raw)),
{
    if let Some(r) = raw {
        if let Some(u) = invoking_uid(r) {
            out.push(u);
        }
    }
    assert(final(out)@ =~= old(out)@ + env_uids(opt_str_view(raw)));
}

/// The UIDs to try, in order, when resolving who invoked this process
/// (`sudo_uid` and `pkexec_uid` are the values of `SUDO_UID` and
/// `PKEXEC_UID`, if set; `real_uid` is the process's real UID).
pub fn invoking_uids(sudo_uid: Option<&str>, pkexec_uid: Option<&str>, real_uid: u32) -> (r: Vec<u32>)
    ensures
        r@ == invoking_order(opt_str_view(sudo_uid), opt_str_view(pkexec_uid), real_uid),
{
    let mut r: Vec<u32> = Vec::new();
    push_env_uid(&mut r, sudo_uid);
    push_env_uid(&mut r, pkexec_uid);
    r.push(real_uid);
    assert(r@ =~= invoking_order(opt_str_view(sudo_uid), opt_str_view(pkexec_uid), real_uid));
    r
}

/// Who invoked a session: a `sudo` or `pkexec` caller is preferred, `SUDO_UID`
/// first; root and values that are not a UID are skipped, and the real UID
/// of the process always comes last, so a lookup that falls through ends at
/// the current user rather than at root or at an error.
pub proof fn lemma_invoking_falls_back_to_real_uid(
    sudo_uid: Option<Seq<char>>,
    pkexec_uid: Option<Seq<char>>,
    real_uid: u32,
)
    ensures
        ({
            let l = invoking_order(sudo_uid, pkexec_uid, real_uid);
            &&& 1 <= l.len() <= 3
            &&& l.last() == real_uid
            &&& forall|i: int| 0 <= i < l.len() - 1 ==> #[trigger] l[i] != 0
            &&& (sudo_uid is Some && env_uid(sudo_uid->0) is Some) ==> l[0] == env_uid(sudo_uid->0)->0
            &&& (sudo_uid is None || env_uid(sudo_uid->0) is None) ==> l == env_uids(pkexec_uid).push(
                real_uid,
            )
            &&& (sudo_uid is None || env_uid(sudo_uid->0) is None) && (pkexec_uid is None || env_uid(
                pkexec_uid->0,
            ) is None) ==> l == seq![real_uid]
        }),
{
    let a = env_uids(sudo_uid);
    let b = env_uids(pkexec_uid);
    let l = invoking_order(sudo_uid, pkexec_uid, real_uid);
    assert(l == a + b + seq![real_uid]);
    assert(forall|i: int| 0 <= i < a.len() ==> #[trigger] a[i] != 0);
    assert(forall|i: int| 0 <= i < b.len() ==> #[trigger] b[i] != 0);
    assert forall|i: int| 0 <= i < l.len() - 1 implies #[trigger] l[i] != 0 by {
        if i < a.len() {
            assert(l[i] == a[i]);
        } else {
            assert(l[i] == b[i - a.len()]);
        }
    }
    if sudo_uid is None || env_uid(sudo_uid->0) is None {
        assert(a =~= Seq::<u32>::empty());
        assert(l =~= b.push(real_uid));
        if pkexec_uid is None || env_uid(pkexec_uid->0) is None {
            assert(b =~= Seq::<u32>::empty());
            assert(l =~= seq![real_uid]);
        }
    }
}

} // verus!
