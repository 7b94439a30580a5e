use vstd::prelude::*;

use crate::model::texts;
use crate::text::same_text;

verus! {

// ---------------------------------------------------------------------------------------------
// The platform whose path rules apply.
// ---------------------------------------------------------------------------------------------

/// The family of platforms whose path rules apply: on Unix `/` separates the parts of a
/// path; on Windows `\` does too, and a path may start with a drive such as `C:`.
#[derive(Clone, Copy, PartialEq, Eq, Structural)]
pub enum Platform {
    Unix,
    Windows,
}

/// `c` separates the parts of a path on `platform`.
pub open spec fn is_separator(c: char, platform: Platform) -> bool {
    c == '/' || (platform == Platform::Windows && c == '\\')
}

/// Tells whether `c` separates the parts of a path on `platform`.
pub fn is_separator_exec(c: char, platform: Platform) -> (r: bool)
    ensures
        r == is_separator(c, platform),
{
    c == '/' || (platform == Platform::Windows && c == '\\')
}

/// `c` is an ASCII letter.
pub open spec fn is_ascii_letter(c: char) -> bool {
    ('a' <= c <= 'z') || ('A' <= c <= 'Z')
}

/// On Windows, the path starts with a drive: an ASCII letter and `:`.
pub open spec fn has_drive(s: Seq<char>, platform: Platform) -> bool {
    platform == Platform::Windows && s.len() >= 2 && is_ascii_letter(s[0]) && s[1] == ':'
}

/// Tells whether the path starts with a drive on `platform`.
pub fn has_drive_exec(s: &str, platform: Platform) -> (r: bool)
    ensures
        r == has_drive(s@, platform),
{
    if platform != Platform::Windows || s.unicode_len() < 2 {
        return false;
    }
    let c = s.get_char(0);
    (('a' <= c && c <= 'z') || ('A' <= c && c <= 'Z')) && s.get_char(1) == ':'
}

// ---------------------------------------------------------------------------------------------
// Comparing folder paths as paths compare: component by component.
// ---------------------------------------------------------------------------------------------

/// `c` with an ASCII small letter turned into its capital.
pub open spec fn ascii_upper(c: char) -> char {
    if 'a' <= c <= 'z' {
        ((c as u32) - 32) as char
    } else {
        c
    }
}

/// The drive a path starts with on `platform`, by its capital letter.
pub open spec fn drive_letter(s: Seq<char>, platform: Platform) -> Option<char> {
    if has_drive(s, platform) {
        Some(ascii_upper(s[0]))
    } else {
        None
    }
}

/// The path after its drive, if it has one.
pub open spec fn after_drive(s: Seq<char>, platform: Platform) -> Seq<char> {
    if has_drive(s, platform) {
        s.skip(2)
    } else {
        s
    }
}

/// On Windows, the path starts with two separators: a network or device path.
pub open spec fn is_network(s: Seq<char>, platform: Platform) -> bool {
    platform == Platform::Windows && s.len() >= 2 && is_separator(s[0], platform) && is_separator(
        s[1],
        platform,
    )
}

/// After its drive, the path starts at the root: with a separator.
pub open spec fn is_rooted(s: Seq<char>, platform: Platform) -> bool {
    let r = after_drive(s, platform);
    r.len() > 0 && is_separator(r[0], platform)
}

/// After its drive, the path is relative and its first component is `.`, which a
/// comparison of paths keeps.
pub open spec fn starts_at_current(s: Seq<char>, platform: Platform) -> bool {
    let r = after_drive(s, platform);
    r.len() > 0 && r[0] == '.' && (r.len() == 1 || is_separator(r[1], platform))
}

/// The components read so far, with `part` added unless it is empty or `.`.
pub open spec fn keep_part(done: Seq<Seq<char>>, part: Seq<char>) -> Seq<Seq<char>> {
    if part.len() > 0 && part != "."@ {
        done.push(part)
    } else {
        done
    }
}

/// Reading a path from its start: the components completed so far, and the piece after the
/// last separator.
pub open spec fn scan_path(s: Seq<char>, platform: Platform) -> (Seq<Seq<char>>, Seq<char>)
    decreases s.len(),
{
    if s.len() == 0 {
        (Seq::empty(), Seq::empty())
    } else {
        let (done, cur) = scan_path(s.drop_last(), platform);
        if is_separator(s.last(), platform) {
            (keep_part(done, cur), Seq::empty())
        } else {
            (done, cur.push(s.last()))
        }
    }
}

/// The named components of a path after its drive: its pieces between separators, without
/// the empty ones and `.`.
pub open spec fn path_parts(s: Seq<char>, platform: Platform) -> Seq<Seq<char>> {
    let r = after_drive(s, platform);
    keep_part(scan_path(r, platform).0, scan_path(r, platform).1)
}

/// Two paths are the same as paths compare on `platform`: the same drive, if any (its letter
/// in either case), both network paths or neither, both rooted or neither, both starting
/// with a `.` component or neither, and the same named components. So `a//b`, `a/./b` and
/// `a/b/` are all `a/b`, and on Windows `C:\a` is `c:/a`.
pub open spec fn same_path(a: Seq<char>, b: Seq<char>, platform: Platform) -> bool {
    &&& drive_letter(a, platform) == drive_letter(b, platform)
    &&& is_network(a, platform) == is_network(b, platform)
    &&& is_rooted(a, platform) == is_rooted(b, platform)
    &&& starts_at_current(a, platform) == starts_at_current(b, platform)
    &&& path_parts(a, platform) == path_parts(b, platform)
}

fn keep_part_exec(done: &mut Vec<String>, part: String)
    ensures
        texts(final(done)@) == keep_part(texts(old(done)@), part@),
{
    proof {
        reveal_strlit(".");
    }
    if part.unicode_len() > 0 && !same_text(part.as_str(), ".") {
        let ghost before = done@;
        let ghost pv = part@;
        done.push(part);
        assert(texts(done@) =~= texts(before).push(pv));
    }
}

/// The path after its drive, if it has one.
fn after_drive_exec(s: &str, platform: Platform) -> (r: &str)
    ensures
        r@ == after_drive(s@, platform),
{
    if has_drive_exec(s, platform) {
        s.substring_char(2, s.unicode_len())
    } else {
        s
    }
}

/// The named components of a path after its drive.
pub fn path_parts_exec(s: &str, platform: Platform) -> (r: Vec<String>)
    ensures
        texts(r@) == path_parts(s@, platform),
{
    let rest = after_drive_exec(s, platform);
    let n = rest.unicode_len();
    let mut done: Vec<String> = Vec::new();
    let mut cur = String::new();
    let mut i: usize = 0;
    assert(texts(done@) =~= Seq::<Seq<char>>::empty());
    assert(rest@.take(0) =~= Seq::<char>::empty());
    while i < n
        invariant
            n == rest@.len(),
            i <= n,
            texts(done@) == scan_path(rest@.take(i as int), platform).0,
            cur@ == scan_path(rest@.take(i as int), platform).1,
        decreases n - i,
    {
        let c = rest.get_char(i);
        assert(rest@.take(i as int + 1).drop_last() =~= rest@.take(i as int));
        assert(rest@.take(i as int + 1).last() == c);
        if is_separator_exec(c, platform) {
            let part = cur;
            keep_part_exec(&mut done, part);
            cur = String::new();
        } else {
            let piece = rest.substring_char(i, i + 1);
            assert(piece@ =~= seq![c]);
            cur.append(piece);
            assert(cur@ =~= scan_path(rest@.take(i as int), platform).1.push(c));
        }
        i = i + 1;
    }
    assert(rest@.take(n as int) =~= rest@);
    keep_part_exec(&mut done, cur);
    done
}

/// The drive a path starts with, by its capital letter.
fn drive_letter_exec(s: &str, platform: Platform) -> (r: Option<char>)
    ensures
        r == drive_letter(s@, platform),
{
    if has_drive_exec(s, platform) {
        let c = s.get_char(0);
        if 'a' <= c && c <= 'z' {
            proof {
                assert(((c as u32) - 32) as char == ((c as u32 - 32) as u32) as char);
            }
            Some(((c as u32 - 32) as u8) as char)
        } else {
            Some(c)
        }
    } else {
        None
    }
}

/// Tells whether two folder paths are the same as paths compare on `platform`.
pub fn same_folder(a: &str, b: &str, platform: Platform) -> (r: bool)
    ensures
        r == same_path(a@, b@, platform),
{
    if drive_letter_exec(a, platform) != drive_letter_exec(b, platform) {
        return false;
    }
    let na = a.unicode_len();
    let nb = b.unicode_len();
    let network_a = platform == Platform::Windows && na >= 2 && is_separator_exec(a.get_char(0), platform)
        && is_separator_exec(a.get_char(1), platform);
    let network_b = platform == Platform::Windows && nb >= 2 && is_separator_exec(b.get_char(0), platform)
        && is_separator_exec(b.get_char(1), platform);
    if network_a != network_b {
        return false;
    }
    let ra = after_drive_exec(a, platform);
    let rb = after_drive_exec(b, platform);
    let ma = ra.unicode_len();
    let mb = rb.unicode_len();
    let rooted_a = ma > 0 && is_separator_exec(ra.get_char(0), platform);
    let rooted_b = mb > 0 && is_separator_exec(rb.get_char(0), platform);
    let current_a = ma > 0 && ra.get_char(0) == '.' && (ma == 1 || is_separator_exec(ra.get_char(1), platform));
    let current_b = mb > 0 && rb.get_char(0) == '.' && (mb == 1 || is_separator_exec(rb.get_char(1), platform));
    if rooted_a != rooted_b || current_a != current_b {
        return false;
    }
    let pa = path_parts_exec(a, platform);
    let pb = path_parts_exec(b, platform);
    same_texts(&pa, &pb)
}

fn same_texts(pa: &Vec<String>, pb: &Vec<String>) -> (r: bool)
    ensures
        r == (texts(pa@) == texts(pb@)),
{
    if pa.len() != pb.len() {
        assert(texts(pa@).len() != texts(pb@).len());
        return false;
    }
    let mut k: usize = 0;
    while k < pa.len()
        invariant
            pa.len() == pb.len(),
            k <= pa.len(),
            forall|j: int| 0 <= j < k ==> pa@[j]@ == pb@[j]@,
        decreases pa.len() - k,
    {
        if !same_text(pa[k].as_str(), pb[k].as_str()) {
            assert(texts(pa@)[k as int] != texts(pb@)[k as int]);
            return false;
        }
        k = k + 1;
    }
    assert(texts(pa@) =~= texts(pb@));
    true
}

} // verus!
