//! How the launching process is classified. The application reads the parent
//! process id and executable name from the operating system; the decisions
//! about them — shell detection, whitelisting — are made here on plain
//! values.

use vstd::prelude::*;
use vstd::string::*;

verus! {

/// The character's code with an ASCII capital letter folded to lower case.
pub open spec fn lower_code(c: char) -> int {
    if 65 <= c as u32 && c as u32 <= 90 {
        c as u32 + 32
    } else {
        c as u32 as int
    }
}

/// Equality of two character sequences up to ASCII case.
pub open spec fn eq_nocase(a: Seq<char>, b: Seq<char>) -> bool {
    a.len() == b.len() && forall|i: int| 0 <= i < a.len() ==> lower_code(a[i]) == lower_code(b[i])
}

/// Compare two strings for equality ignoring ASCII case.
pub fn eq_ignore_ascii_case(a: &str, b: &str) -> (r: bool)
    ensures
        r == eq_nocase(a@, b@),
{
    let alen = a.unicode_len();
    let blen = b.unicode_len();
    if alen != blen {
        return false;
    }
    let mut i: usize = 0;
    while i < alen
        invariant
            alen == a@.len(),
            blen == b@.len(),
            alen == blen,
            i <= alen,
            forall|j: int| 0 <= j < i ==> lower_code(a@[j]) == lower_code(b@[j]),
        decreases alen - i,
    {
        let ca = a.get_char(i);
        let cb = b.get_char(i);
        let cau = ca as u32;
        let cbu = cb as u32;
        let la = if cau >= 65 && cau <= 90 {
            cau + 32
        } else {
            cau
        };
        let lb = if cbu >= 65 && cbu <= 90 {
            cbu + 32
        } else {
            cbu
        };
        if la != lb {
            proof {
                assert(lower_code(a@[i as int]) != lower_code(b@[i as int]));
            }
            return false;
        }
        i = i + 1;
    }
    true
}

/// The executable names of shells and terminals: a process whose parent is
/// one of these was started from a console that already exists.
pub open spec fn shell_parents() -> Seq<Seq<char>> {
    seq!["cmd"@, "pwsh"@, "cargo"@, "conhost"@, "powershell"@, "wezterm-gui"@]
}

/// Whether a process whose parent executable is named `name` counts as
/// started outside any shell — that is, `name` matches none of the known
/// shell and terminal names, up to ASCII case.
pub open spec fn spec_shell_executed(name: Seq<char>) -> bool {
    forall|i: int| 0 <= i < shell_parents().len() ==> !eq_nocase(name, #[trigger] shell_parents()[i])
}

/// Decide from the parent executable's name whether the process was started
/// outside a shell: true exactly when the name matches none of the known
/// shell and terminal names, ignoring ASCII case.
pub fn is_shell_executed(filename: &str) -> (r: bool)
    ensures
        r == spec_shell_executed(filename@),
{
    proof {
        assert(shell_parents()[0] == "cmd"@);
        assert(shell_parents()[1] == "pwsh"@);
        assert(shell_parents()[2] == "cargo"@);
        assert(shell_parents()[3] == "conhost"@);
        assert(shell_parents()[4] == "powershell"@);
        assert(shell_parents()[5] == "wezterm-gui"@);
    }
    if eq_ignore_ascii_case(filename, "cmd") {
        return false;
    }
    if eq_ignore_ascii_case(filename, "pwsh") {
        return false;
    }
    if eq_ignore_ascii_case(filename, "cargo") {
        return false;
    }
    if eq_ignore_ascii_case(filename, "conhost") {
        return false;
    }
    if eq_ignore_ascii_case(filename, "powershell") {
        return false;
    }
    if eq_ignore_ascii_case(filename, "wezterm-gui") {
        return false;
    }
    proof {
        assert forall|i: int| 0 <= i < shell_parents().len() implies !eq_nocase(
            filename@,
            #[trigger] shell_parents()[i],
        ) by {
            if i == 0 {
            } else if i == 1 {
            } else if i == 2 {
            } else if i == 3 {
            } else if i == 4 {
            } else {
                assert(i == 5);
            }
        }
    }
    true
}

/// The executable names of applications exempt from console handling.
pub open spec fn whitelist_names() -> Seq<Seq<char>> {
    seq!["conhost"@, "wezterm-gui"@, "WindowsTerminal"@]
}

/// Whether `name` is one of the whitelisted application names, up to ASCII
/// case.
pub open spec fn spec_whitelisted(name: Seq<char>) -> bool {
    exists|i: int| 0 <= i < whitelist_names().len() && eq_nocase(name, #[trigger] whitelist_names()[i])
}

/// Decide from a window's process name — if it could be read at all —
/// whether the application is whitelisted: true exactly when the name
/// matches one of the whitelisted names, ignoring ASCII case. An unreadable
/// name is never whitelisted.
pub fn is_whitelist_fs_app(proc_name: Option<&str>) -> (r: bool)
    ensures
        r == match proc_name {
            None => false,
            Some(n) => spec_whitelisted(n@),
        },
{
    proof {
        assert(whitelist_names()[0] == "conhost"@);
        assert(whitelist_names()[1] == "wezterm-gui"@);
        assert(whitelist_names()[2] == "WindowsTerminal"@);
    }
    let name = match proc_name {
        None => {
            return false;
        },
        Some(n) => n,
    };
    if eq_ignore_ascii_case(name, "conhost") {
        proof {
            assert(eq_nocase(name@, whitelist_names()[0]));
        }
        return true;
    }
    if eq_ignore_ascii_case(name, "wezterm-gui") {
        proof {
            assert(eq_nocase(name@, whitelist_names()[1]));
        }
        return true;
    }
    if eq_ignore_ascii_case(name, "WindowsTerminal") {
        proof {
            assert(eq_nocase(name@, whitelist_names()[2]));
        }
        return true;
    }
    proof {
        assert forall|i: int|
            0 <= i < whitelist_names().len() implies !eq_nocase(
            name@,
            #[trigger] whitelist_names()[i],
        ) by {
            if i == 0 {
            } else if i == 1 {
            } else {
                assert(i == 2);
            }
        }
    }
    false
}

/// Whether `c` is an ASCII decimal digit.
pub open spec fn is_digit(c: char) -> bool {
    48 <= c as u32 && c as u32 <= 57
}

/// The numeric value of the digit `c`.
pub open spec fn digit_val(c: char) -> int {
    c as u32 - 48
}

pub open spec fn all_digits(s: Seq<char>) -> bool {
    forall|i: int| 0 <= i < s.len() ==> is_digit(#[trigger] s[i])
}

/// The number written by the digit sequence `s`, most significant first.
pub open spec fn digits_value(s: Seq<char>) -> int
    decreases s.len(),
{
    if s.len() == 0 {
        0
    } else {
        digits_value(s.drop_last()) * 10 + digit_val(s.last())
    }
}

proof fn lemma_digits_value_nonneg(s: Seq<char>)
    requires
        all_digits(s),
    ensures
        digits_value(s) >= 0,
    decreases s.len(),
{
    if s.len() > 0 {
        assert(all_digits(s.drop_last())) by {
            assert(forall|i: int| 0 <= i < s.len() - 1 ==> s.drop_last()[i] == s[i]);
        }
        lemma_digits_value_nonneg(s.drop_last());
        assert(is_digit(s.last()));
    }
}

/// A longer run of digits never writes a smaller number.
proof fn lemma_digits_value_prefix(s: Seq<char>, i: int)
    requires
        all_digits(s),
        0 <= i <= s.len(),
    ensures
        digits_value(s) >= digits_value(s.take(i)),
    decreases s.len() - i,
{
    if i < s.len() {
        lemma_digits_value_prefix(s, i + 1);
        let t = s.take(i + 1);
        assert(t.drop_last() =~= s.take(i));
        assert(t.last() == s[i]);
        assert(all_digits(s.take(i))) by {
            assert(forall|j: int| 0 <= j < i ==> s.take(i)[j] == s[j]);
        }
        lemma_digits_value_nonneg(s.take(i));
        assert(is_digit(s[i]));
        assert(digits_value(t) == digits_value(s.take(i)) * 10 + digit_val(s[i]));
        assert(digits_value(s.take(i)) * 10 >= digits_value(s.take(i))) by (nonlinear_arith)
            requires
                digits_value(s.take(i)) >= 0,
        ;
    } else {
        assert(s.take(i) =~= s);
    }
}

/// Read an unsigned number from `s`, exactly as far as it fits: the result
/// exists when `s` is one or more decimal digits whose value fits the type,
/// and is `None` on an empty string, a non-digit, or overflow.
pub fn parse_u32(s: &str) -> (r: Option<u32>)
    ensures
        r is Some <==> (s@.len() > 0 && all_digits(s@) && digits_value(s@) <= u32::MAX),
        r matches Some(n) ==> n == digits_value(s@),
{
    let len = s.unicode_len();
    if len == 0 {
        return None;
    }
    let mut acc: u32 = 0;
    let mut i: usize = 0;
    while i < len
        invariant
            len == s@.len(),
            0 < len,
            i <= len,
            all_digits(s@.take(i as int)),
            acc == digits_value(s@.take(i as int)),
        decreases len - i,
    {
        let c = s.get_char(i);
        let cu = c as u32;
        if cu < 48 || cu > 57 {
            proof {
                assert(!is_digit(s@[i as int]));
            }
            return None;
        }
        let d = cu - 48;
        proof {
            let t = s@.take(i as int + 1);
            assert(t.drop_last() =~= s@.take(i as int));
            assert(t.last() == s@[i as int]);
            assert(all_digits(t)) by {
                assert(forall|j: int| 0 <= j < i ==> t[j] == s@.take(i as int)[j]);
            }
            assert(digits_value(t) == acc * 10 + d);
            lemma_digits_value_nonneg(s@.take(i as int));
        }
        if acc > (u32::MAX - d) / 10 {
            proof {
                // The number read so far already exceeds the type, so the
                // whole string does too.
                assert(acc * 10 + d > u32::MAX) by (nonlinear_arith)
                    requires
                        acc > (u32::MAX - d) / 10,
                        0 <= d <= 9,
                ;
                assert(digits_value(s@.take(i as int + 1)) > u32::MAX);
                if all_digits(s@) {
                    lemma_digits_value_prefix(s@, i as int + 1);
                }
            }
            return None;
        }
        proof {
            assert(acc * 10 + d <= u32::MAX) by (nonlinear_arith)
                requires
                    acc <= (u32::MAX - d) / 10,
                    0 <= d <= 9,
            ;
        }
        acc = acc * 10 + d;
        i = i + 1;
    }
    proof {
        assert(s@.take(len as int) =~= s@);
    }
    Some(acc)
}

/// ASCII whitespace, as it occurs around the fields of command output.
pub open spec fn is_space(c: char) -> bool {
    c == ' ' || c == '\t' || c == '\r' || c == '\n'
}

pub open spec fn drop_leading(s: Seq<char>) -> Seq<char>
    decreases s.len(),
{
    if s.len() > 0 && is_space(s.first()) {
        drop_leading(s.drop_first())
    } else {
        s
    }
}

pub open spec fn drop_trailing(s: Seq<char>) -> Seq<char>
    decreases s.len(),
{
    if s.len() > 0 && is_space(s.last()) {
        drop_trailing(s.drop_last())
    } else {
        s
    }
}

/// `s` without its leading and trailing ASCII whitespace.
pub open spec fn spec_trim(s: Seq<char>) -> Seq<char> {
    drop_trailing(drop_leading(s))
}

proof fn lemma_drop_leading_skip(s: Seq<char>, a: int)
    requires
        0 <= a <= s.len(),
        forall|j: int| 0 <= j < a ==> is_space(#[trigger] s[j]),
        a < s.len() ==> !is_space(s[a]),
    ensures
        drop_leading(s) == s.skip(a),
    decreases a,
{
    if a == 0 {
        assert(s.skip(0) =~= s);
        if s.len() > 0 {
            assert(!is_space(s.first()));
        }
    } else {
        assert(is_space(s.first())) by {
            assert(s[0] == s.first());
        }
        let t = s.drop_first();
        assert(forall|j: int| 0 <= j < a - 1 ==> t[j] == s[j + 1]);
        assert(a - 1 < t.len() ==> !is_space(t[a - 1]));
        lemma_drop_leading_skip(t, a - 1);
        assert(t.skip(a - 1) =~= s.skip(a));
    }
}

proof fn lemma_drop_trailing_take(s: Seq<char>, b: int)
    requires
        0 <= b <= s.len(),
        forall|j: int| b <= j < s.len() ==> is_space(#[trigger] s[j]),
        b > 0 ==> !is_space(s[b - 1]),
    ensures
        drop_trailing(s) == s.take(b),
    decreases s.len() - b,
{
    if b == s.len() {
        assert(s.take(b) =~= s);
        if s.len() > 0 {
            assert(!is_space(s.last()));
        }
    } else {
        assert(is_space(s.last()));
        let t = s.drop_last();
        assert(forall|j: int| b <= j < t.len() ==> t[j] == s[j]);
        assert(b > 0 ==> t[b - 1] == s[b - 1]);
        lemma_drop_trailing_take(t, b);
        assert(t.take(b) =~= s.take(b));
    }
}

/// Whether `c` is ASCII whitespace.
fn space_char(c: char) -> (r: bool)
    ensures
        r == is_space(c),
{
    c == ' ' || c == '\t' || c == '\r' || c == '\n'
}

/// Strip leading and trailing ASCII whitespace, as around the values in
/// command output.
pub fn trim_spaces(s: &str) -> (r: &str)
    ensures
        r@ == spec_trim(s@),
{
    let len = s.unicode_len();
    let mut a: usize = 0;
    while a < len && space_char(s.get_char(a))
        invariant
            len == s@.len(),
            a <= len,
            forall|j: int| 0 <= j < a ==> is_space(#[trigger] s@[j]),
        decreases len - a,
    {
        a = a + 1;
    }
    let mut b: usize = len;
    while b > a && space_char(s.get_char(b - 1))
        invariant
            len == s@.len(),
            a <= b <= len,
            forall|j: int| 0 <= j < a ==> is_space(#[trigger] s@[j]),
            a < len ==> !is_space(s@[a as int]),
            forall|j: int| b <= j < len ==> is_space(#[trigger] s@[j]),
        decreases b,
    {
        b = b - 1;
    }
    proof {
        lemma_drop_leading_skip(s@, a as int);
        let t = s@.skip(a as int);
        assert(forall|j: int| b - a <= j < t.len() ==> t[j] == s@[j + a]);
        assert(b > a ==> t[b - a - 1] == s@[b - 1]);
        lemma_drop_trailing_take(t, b - a);
        assert(t.take(b - a) =~= s@.subrange(a as int, b as int));
    }
    s.substring_char(a, b)
}

/// Index of the last `.` in `name`, or `-1` when there is none.
pub open spec fn last_dot(name: Seq<char>) -> int
    decreases name.len(),
{
    if name.len() == 0 {
        -1
    } else if name.last() == '.' {
        name.len() - 1
    } else {
        last_dot(name.drop_last())
    }
}

proof fn lemma_last_dot(name: Seq<char>)
    ensures
        -1 <= last_dot(name) < name.len(),
        last_dot(name) == -1 ==> forall|j: int| 0 <= j < name.len() ==> name[j] != '.',
        last_dot(name) >= 0 ==> name[last_dot(name)] == '.',
        forall|j: int| last_dot(name) < j < name.len() ==> name[j] != '.',
    decreases name.len(),
{
    if name.len() > 0 && name.last() != '.' {
        lemma_last_dot(name.drop_last());
        assert(forall|j: int| 0 <= j < name.len() - 1 ==> name[j] == name.drop_last()[j]);
    }
}

/// The stem of the plain file name `name`: everything before the last `.`,
/// unless that dot is leading or absent, in which case the whole name.
pub open spec fn spec_file_stem(name: Seq<char>) -> Seq<char> {
    if last_dot(name) >= 1 {
        name.take(last_dot(name))
    } else {
        name
    }
}

/// Cut the extension off a plain file name (one without directory
/// separators): the part before the last dot, with a leading dot never
/// counted as starting an extension.
pub fn file_stem(name: &str) -> (r: &str)
    ensures
        r@ == spec_file_stem(name@),
{
    let len = name.unicode_len();
    let mut i: usize = len;
    while i > 0
        invariant
            len == name@.len(),
            i <= len,
            forall|j: int| i <= j < len ==> name@[j] != '.',
        decreases i,
    {
        if name.get_char(i - 1) == '.' {
            proof {
                lemma_last_dot(name@);
                assert(name@[i - 1] == '.');
                assert(last_dot(name@) == i - 1) by {
                    if last_dot(name@) > i - 1 {
                        assert(name@[last_dot(name@)] != '.');
                    }
                }
            }
            if i - 1 >= 1 {
                let r = name.substring_char(0, i - 1);
                proof {
                    assert(r@ =~= spec_file_stem(name@));
                }
                return r;
            }
            proof {
                assert(spec_file_stem(name@) == name@);
            }
            return name;
        }
        i = i - 1;
    }
    proof {
        lemma_last_dot(name@);
        assert(last_dot(name@) == -1) by {
            if last_dot(name@) >= 0 {
                assert(name@[last_dot(name@)] == '.');
            }
        }
    }
    name
}

/// What could be learned about how the process was started.
#[derive(Clone, Debug)]
pub struct ProcExecInfo {
    pub pid: u32,
    pub parent_pid: u32,
    pub parent_pname: String,
    pub is_shell_executed: bool,
}

/// Combine what the operating system reported about the process — its parent
/// process id and the parent's executable name, either of which may have
/// been unreadable — into the startup classification. Succeeds exactly when
/// both were readable.
pub fn get_exec_info(pid: u32, parent_pid: Option<u32>, parent_pname: Option<String>) -> (r:
    Option<ProcExecInfo>)
    ensures
        match (parent_pid, parent_pname) {
            (Some(p), Some(n)) => r matches Some(info) && info.pid == pid && info.parent_pid == p
                && info.parent_pname@ == n@ && info.is_shell_executed == spec_shell_executed(n@),
            _ => r is None,
        },
{
    let ppid = match parent_pid {
        Some(p) => p,
        None => {
            return None;
        },
    };
    let pname = match parent_pname {
        Some(n) => n,
        None => {
            return None;
        },
    };
    let shell = is_shell_executed(pname.as_str());
    Some(ProcExecInfo { pid, parent_pid: ppid, parent_pname: pname, is_shell_executed: shell })
}

} // verus!
