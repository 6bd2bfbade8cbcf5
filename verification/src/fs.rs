//! Paths as text, and the physical operation that is planned for a file.
//!
//! A path is a sequence of characters in which `/` separates the components.
//! Its file name is what follows the last `/`; the extension of the file name
//! is what follows its last `.`, where that dot is not the first character of
//! the name and the name is not `..`.

use vstd::prelude::*;
use crate::text::{extend_range, extend_str, from_chars, push_zero_padded, to_chars, zero_padded};
use crate::text::{decimal, decimal_value, is_digit, lemma_three_digits, lemma_zero_padded};
use crate::text::{lemma_zero_padded_injective, texts};

verus! {

/// The last index at which `c` stands in `s`, or -1 where it does not occur.
pub open spec fn last_index_of(s: Seq<char>, c: char) -> int
    decreases s.len(),
{
    if s.len() == 0 {
        -1
    } else if s.last() == c {
        s.len() - 1
    } else {
        last_index_of(s.drop_last(), c)
    }
}

/// The index at which the file name of `path` begins.
pub open spec fn file_name_start(path: Seq<char>) -> int {
    last_index_of(path, '/') + 1
}

/// The file name of `path`: what follows its last `/`.
pub open spec fn file_name(path: Seq<char>) -> Seq<char> {
    path.subrange(file_name_start(path), path.len() as int)
}

/// The index of the last `.` of `path`, or -1.
pub open spec fn final_dot(path: Seq<char>) -> int {
    last_index_of(path, '.')
}

/// Whether the file name of `path` has an extension.
pub open spec fn carries_extension(path: Seq<char>) -> bool {
    &&& final_dot(path) > file_name_start(path)
    &&& file_name(path) != seq!['.', '.']
}

/// The extension of `path`, without its dot. Meant for a path that carries
/// one.
pub open spec fn extension_text(path: Seq<char>) -> Seq<char> {
    path.subrange(final_dot(path) + 1, path.len() as int)
}

/// `path` with `-NNN` put in front of the dot of its extension, where `NNN`
/// is `number` in decimal, zero-padded to three places.
pub open spec fn suffixed(path: Seq<char>, number: nat) -> Seq<char> {
    path.subrange(0, final_dot(path)) + seq!['-'] + zero_padded(number, 3) + path.subrange(
        final_dot(path),
        path.len() as int,
    )
}

/// Whether `path` starts at the root.
pub open spec fn absolute(path: Seq<char>) -> bool {
    path.len() > 0 && path[0] == '/'
}

/// `name` placed under the directory `dir`.
pub open spec fn joined(dir: Seq<char>, name: Seq<char>) -> Seq<char> {
    if dir.len() == 0 || dir.last() == '/' {
        dir + name
    } else {
        dir + seq!['/'] + name
    }
}

/// The enumerating suffix of `number`: a dash and the number, zero-padded to
/// three places.
pub open spec fn suffix_text(number: nat) -> Seq<char> {
    seq!['-'] + zero_padded(number, 3)
}

/// Whether the three characters in front of the dot of the extension are
/// digits, as they are in every suffixed path.
pub open spec fn numbered(path: Seq<char>) -> bool {
    &&& final_dot(path) >= 3
    &&& is_digit(path[final_dot(path) - 1])
    &&& is_digit(path[final_dot(path) - 2])
    &&& is_digit(path[final_dot(path) - 3])
}

/// What `last_index_of` finds: an occurrence of `c` after which there is no
/// other; -1 exactly where `c` does not occur.
pub proof fn lemma_last_index_of(s: Seq<char>, c: char)
    ensures
        -1 <= last_index_of(s, c) < s.len(),
        last_index_of(s, c) >= 0 ==> s[last_index_of(s, c)] == c,
        forall|j: int| last_index_of(s, c) < j < s.len() ==> s[j] != c,
    decreases s.len(),
{
    if s.len() > 0 && s.last() != c {
        let front = s.drop_last();
        lemma_last_index_of(front, c);
        assert forall|j: int| last_index_of(s, c) < j < s.len() implies s[j] != c by {
            if j < front.len() {
                assert(front[j] == s[j]);
            }
        }
    }
}

/// An index that holds `c` and is followed by no other `c` is the last index
/// of `c`.
pub proof fn lemma_last_index_is(s: Seq<char>, c: char, i: int)
    requires
        -1 <= i < s.len(),
        i >= 0 ==> s[i] == c,
        forall|j: int| i < j < s.len() ==> s[j] != c,
    ensures
        last_index_of(s, c) == i,
{
    lemma_last_index_of(s, c);
}

/// The last index of `c` in `v`, if it occurs.
pub fn rfind(v: &Vec<char>, c: char) -> (found: Option<usize>)
    ensures
        match found {
            Some(i) => i == last_index_of(v@, c) && i < v.len() && v@[i as int] == c,
            None => last_index_of(v@, c) == -1,
        },
{
    let mut i: usize = v.len();
    while i > 0
        invariant
            i <= v.len(),
            forall|j: int| i <= j < v.len() ==> v@[j] != c,
        decreases i,
    {
        i -= 1;
        if v[i] == c {
            proof {
                lemma_last_index_is(v@, c, i as int);
            }
            return Some(i);
        }
    }
    proof {
        lemma_last_index_is(v@, c, -1);
    }
    None
}

/// The index of the dot of the extension, where the path carries one.
fn extension_dot(chars: &Vec<char>) -> (found: Option<usize>)
    ensures
        found is Some <==> carries_extension(chars@),
        found matches Some(dot) ==> dot == final_dot(chars@) && 0 < dot < chars.len(),
{
    let start: usize = match rfind(chars, '/') {
        Some(slash) => slash + 1,
        None => 0,
    };
    proof {
        lemma_last_index_of(chars@, '/');
    }
    match rfind(chars, '.') {
        Some(dot) => {
            let two_dots = chars.len() - start == 2 && chars[start] == '.' && chars[start + 1]
                == '.';
            proof {
                let name = file_name(chars@);
                if two_dots {
                    assert(name =~= seq!['.', '.']);
                } else if name == seq!['.', '.'] {
                    assert(name.len() == 2);
                    assert(name[0] == '.' && name[1] == '.');
                }
            }
            if dot > start && !two_dots {
                Some(dot)
            } else {
                None
            }
        },
        None => None,
    }
}

/// Whether the file name of `path` has an extension.
pub fn has_extension(path: &str) -> (has: bool)
    ensures
        has == carries_extension(path@),
{
    let chars = to_chars(path);
    extension_dot(&chars).is_some()
}

/// The extension of `path` without its dot, if its file name has one.
pub fn extension(path: &str) -> (found: Option<String>)
    ensures
        found is Some <==> carries_extension(path@),
        found matches Some(ext) ==> ext@ == extension_text(path@),
{
    let chars = to_chars(path);
    match extension_dot(&chars) {
        Some(dot) => {
            let mut ext: Vec<char> = Vec::new();
            extend_range(&mut ext, &chars, dot + 1, chars.len());
            Some(from_chars(&ext))
        },
        None => None,
    }
}

/// Whether `path` starts at the root.
pub fn is_absolute(path: &str) -> (is: bool)
    ensures
        is == absolute(path@),
{
    let chars = to_chars(path);
    chars.len() > 0 && chars[0] == '/'
}

/// The path of `name` under the directory `dir`.
pub fn join(dir: &str, name: &str) -> (path: String)
    ensures
        path@ == joined(dir@, name@),
{
    let mut out = to_chars(dir);
    if out.len() > 0 && out[out.len() - 1] != '/' {
        out.push('/');
    }
    extend_str(&mut out, name);
    from_chars(&out)
}

/// Puts the enumerating suffix `-NNN` in front of the extension of `input`:
/// `number` in decimal, zero-padded to three places.
pub fn insert_suffix(input: &str, number: u64) -> (output: String)
    requires
        carries_extension(input@),
    ensures
        output@ == suffixed(input@, number as nat),
{
    let chars = to_chars(input);
    let mut out: Vec<char> = Vec::new();
    match extension_dot(&chars) {
        Some(dot) => {
            extend_range(&mut out, &chars, 0, dot);
            out.push('-');
            push_zero_padded(&mut out, number, 3);
            extend_range(&mut out, &chars, dot, chars.len());
        },
        // Not reached: the path carries an extension.
        None => {},
    }
    from_chars(&out)
}

/// The name of the `number`-th file among those that would otherwise share
/// the name `input`: `/etc/foo/bar.rs` and 1 give `/etc/foo/bar-001.rs`.
pub fn increment_name(input: &str, number: u32) -> (output: String)
    requires
        carries_extension(input@),
    ensures
        output@ == suffixed(input@, number as nat),
{
    insert_suffix(input, number as u64)
}

/// What is done with a file: it is copied, or moved.
#[derive(Clone, Copy, Debug, PartialEq, Eq, Structural)]
pub enum OperationKind {
    Copy,
    Move,
}

/// What is done where the destination exists already: it is replaced, or it
/// is left as it is.
#[derive(Clone, Copy, Debug, PartialEq, Eq, Structural)]
pub enum OverwritePolicy {
    Overwrite,
    Preserve,
}

/// The physical operation planned for one file.
#[derive(Clone, Debug, PartialEq, Eq)]
pub struct PlannedOperation {
    pub source: String,
    pub destination: String,
    pub kind: OperationKind,
    pub overwrite_policy: OverwritePolicy,
}

/// A planned operation as plain values.
pub struct OperationView {
    pub source: Seq<char>,
    pub destination: Seq<char>,
    pub kind: OperationKind,
    pub overwrite_policy: OverwritePolicy,
}

impl View for PlannedOperation {
    type V = OperationView;

    open spec fn view(&self) -> OperationView {
        OperationView {
            source: self.source@,
            destination: self.destination@,
            kind: self.kind,
            overwrite_policy: self.overwrite_policy,
        }
    }
}

/// The operation that brings `source` to `destination` under the two flags:
/// a move where `do_move` is set, else a copy; replacing an existing
/// destination where `do_overwrite` is set, else preserving it.
pub open spec fn planned_operation(
    source: Seq<char>,
    destination: Seq<char>,
    do_move: bool,
    do_overwrite: bool,
) -> OperationView {
    OperationView {
        source,
        destination,
        kind: if do_move {
            OperationKind::Move
        } else {
            OperationKind::Copy
        },
        overwrite_policy: if do_overwrite {
            OverwritePolicy::Overwrite
        } else {
            OverwritePolicy::Preserve
        },
    }
}

impl OperationView {
    /// The command that performs the operation, the program first: `mv` or
    /// `cp`, then `-n` where an existing destination is preserved, then the
    /// source and the destination.
    pub open spec fn command(self) -> Seq<Seq<char>> {
        let program = match self.kind {
            OperationKind::Move => "mv"@,
            OperationKind::Copy => "cp"@,
        };
        match self.overwrite_policy {
            OverwritePolicy::Overwrite => seq![program, self.source, self.destination],
            OverwritePolicy::Preserve => seq![program, "-n"@, self.source, self.destination],
        }
    }
}

/// How a planned operation ended.
#[derive(Clone, Copy, Debug, PartialEq, Eq, Structural)]
pub enum OperationReport {
    /// The file was copied or moved to its destination.
    Performed,
    /// The destination existed and was to be preserved: it was left as it
    /// was, and the file was skipped.
    Preserved,
    /// The operation failed.
    Failed,
}

impl OperationView {
    /// How the operation ended, given whether its destination existed
    /// before it was performed and whether performing it succeeded. An
    /// operation that preserves meets an existing destination by skipping
    /// the file, which is no failure.
    pub open spec fn report(self, destination_existed: bool, succeeded: bool) -> OperationReport {
        if !succeeded {
            OperationReport::Failed
        } else if destination_existed && self.overwrite_policy == OverwritePolicy::Preserve {
            OperationReport::Preserved
        } else {
            OperationReport::Performed
        }
    }
}

/// Plans the operation that brings `source` to `destination`.
pub fn handle_file(
    source: &str,
    destination: &str,
    do_move: bool,
    do_overwrite: bool,
) -> (operation: PlannedOperation)
    ensures
        operation@ == planned_operation(source@, destination@, do_move, do_overwrite),
{
    PlannedOperation {
        source: source.to_owned(),
        destination: destination.to_owned(),
        kind: if do_move {
            OperationKind::Move
        } else {
            OperationKind::Copy
        },
        overwrite_policy: if do_overwrite {
            OverwritePolicy::Overwrite
        } else {
            OverwritePolicy::Preserve
        },
    }
}

impl PlannedOperation {
    /// How the operation ended, given whether its destination existed
    /// before it was performed and whether performing it succeeded.
    pub fn report(&self, destination_existed: bool, succeeded: bool) -> (report: OperationReport)
        ensures
            report == self@.report(destination_existed, succeeded),
    {
        if !succeeded {
            OperationReport::Failed
        } else if destination_existed && self.overwrite_policy == OverwritePolicy::Preserve {
            OperationReport::Preserved
        } else {
            OperationReport::Performed
        }
    }

    /// The command that performs the operation, the program first.
    pub fn command(&self) -> (command: Vec<String>)
        ensures
            texts(command@) == self@.command(),
            command@.len() == self@.command().len(),
    {
        let mut command: Vec<String> = Vec::new();
        match self.kind {
            OperationKind::Move => command.push("mv".to_owned()),
            OperationKind::Copy => command.push("cp".to_owned()),
        }
        match self.overwrite_policy {
            OverwritePolicy::Overwrite => {},
            OverwritePolicy::Preserve => command.push("-n".to_owned()),
        }
        command.push(self.source.clone());
        command.push(self.destination.clone());
        assert(texts(command@) =~= self@.command());
        command
    }
}

impl OperationReport {
    /// The word with which the report is shown.
    pub fn label(&self) -> (text: String)
        ensures
            text@ == match self {
                OperationReport::Performed => "performed"@,
                OperationReport::Preserved => "preserved"@,
                OperationReport::Failed => "failed"@,
            },
    {
        match self {
            OperationReport::Performed => "performed".to_owned(),
            OperationReport::Preserved => "preserved".to_owned(),
            OperationReport::Failed => "failed".to_owned(),
        }
    }
}

/// Whether the pattern of the camera-raw files tells upper case from lower
/// case: it does not, so that `IMG.CR3` is found as `img.cr3` is.
pub const SCAN_CASE_SENSITIVE: bool = false;

/// The pattern that finds the camera-raw files below the directory `root`,
/// at any depth.
pub open spec fn raw_files_below(root: Seq<char>) -> Seq<char> {
    root + "/**/*.cr3"@
}

/// The pattern that finds the camera-raw files below the directory `root`.
pub fn scan_pattern(root: &str) -> (pattern: String)
    ensures
        pattern@ == raw_files_below(root@),
{
    let mut pattern = to_chars(root);
    extend_str(&mut pattern, "/**/*.cr3");
    from_chars(&pattern)
}

/// Up to 999 the suffix is a dash and exactly three digits that read as the
/// number; the first suffix is `-001`.
pub proof fn lemma_suffix_format(number: nat)
    requires
        number <= 999,
    ensures
        suffix_text(number).len() == 4,
        suffix_text(number)[0] == '-',
        forall|i: int| 1 <= i < 4 ==> is_digit(#[trigger] suffix_text(number)[i]),
        decimal_value(suffix_text(number).subrange(1, 4)) == number,
        suffix_text(1) == seq!['-', '0', '0', '1'],
{
    lemma_zero_padded(number, 3);
    lemma_three_digits(number);
    let digits = zero_padded(number, 3);
    assert(suffix_text(number).subrange(1, 4) =~= digits);
    assert forall|i: int| 1 <= i < 4 implies is_digit(#[trigger] suffix_text(number)[i]) by {
        assert(suffix_text(number)[i] == digits[i - 1]);
    }
    assert(decimal(1) =~= seq!['1']);
    assert(suffix_text(1) =~= seq!['-', '0', '0', '1']);
}

/// Whatever the number, the suffix is a dash and at least three digits that
/// read as the number: above 999 it grows instead of repeating a suffix.
pub proof fn lemma_suffix_digits(number: nat)
    ensures
        suffix_text(number).len() >= 4,
        suffix_text(number)[0] == '-',
        forall|i: int|
            1 <= i < suffix_text(number).len() ==> is_digit(#[trigger] suffix_text(number)[i]),
        decimal_value(suffix_text(number).subrange(1, suffix_text(number).len() as int))
            == number,
{
    lemma_zero_padded(number, 3);
    let digits = zero_padded(number, 3);
    let suffix = suffix_text(number);
    assert(suffix.subrange(1, suffix.len() as int) =~= digits);
    assert forall|i: int| 1 <= i < suffix.len() implies is_digit(#[trigger] suffix[i]) by {
        assert(suffix[i] == digits[i - 1]);
    }
}

/// The suffixed path is the path with the suffix put in front of the dot of
/// its extension.
pub proof fn lemma_suffixed_parts(path: Seq<char>, number: nat)
    requires
        carries_extension(path),
    ensures
        suffixed(path, number) == path.subrange(0, final_dot(path)) + suffix_text(number)
            + seq!['.'] + extension_text(path),
        suffixed(path, number).len() == path.len() + suffix_text(number).len(),
{
    lemma_last_index_of(path, '.');
    lemma_last_index_of(path, '/');
    let dot = final_dot(path);
    assert(path.subrange(dot, path.len() as int) =~= seq!['.'] + extension_text(path));
    assert(suffixed(path, number) =~= path.subrange(0, dot) + suffix_text(number) + seq!['.']
        + extension_text(path));
}

/// Two numbers give one path the same suffixed name only if they are equal.
pub proof fn lemma_suffixed_injective(path: Seq<char>, a: nat, b: nat)
    requires
        carries_extension(path),
        suffixed(path, a) == suffixed(path, b),
    ensures
        a == b,
{
    lemma_last_index_of(path, '.');
    lemma_last_index_of(path, '/');
    let dot = final_dot(path);
    let head = path.subrange(0, dot) + seq!['-'];
    let tail = path.subrange(dot, path.len() as int);
    let za = zero_padded(a, 3);
    let zb = zero_padded(b, 3);
    assert(suffixed(path, a) =~= head + za + tail);
    assert(suffixed(path, b) =~= head + zb + tail);
    assert((head + za + tail).len() == (head + zb + tail).len());
    assert(za.len() == zb.len());
    assert forall|i: int| 0 <= i < za.len() implies za[i] == zb[i] by {
        assert((head + za + tail)[head.len() + i] == za[i]);
        assert((head + zb + tail)[head.len() + i] == zb[i]);
    }
    assert(za =~= zb);
    lemma_zero_padded_injective(a, b, 3);
}

/// A digit is neither a separator nor a dot.
proof fn lemma_digit_is_plain(c: char)
    requires
        is_digit(c),
    ensures
        c != '/',
        c != '.',
        c != '-',
{
}

/// The suffix changes neither the directory nor the extension: the suffixed
/// path carries the same extension, and its file name begins where that of
/// the path does.
pub proof fn lemma_suffixed_extension(path: Seq<char>, number: nat)
    requires
        carries_extension(path),
    ensures
        carries_extension(suffixed(path, number)),
        extension_text(suffixed(path, number)) == extension_text(path),
        file_name_start(suffixed(path, number)) == file_name_start(path),
        final_dot(suffixed(path, number)) == final_dot(path) + suffix_text(number).len(),
        suffixed(path, number).subrange(0, file_name_start(path)) == path.subrange(
            0,
            file_name_start(path),
        ),
{
    lemma_last_index_of(path, '.');
    lemma_last_index_of(path, '/');
    lemma_suffix_digits(number);
    lemma_suffixed_index(path, number);
    let dot = final_dot(path);
    let slash = last_index_of(path, '/');
    let suffix = suffix_text(number);
    let out = suffixed(path, number);
    let grown = suffix.len() as int;
    assert forall|j: int| dot <= j < dot + grown implies out[j] != '/' && out[j] != '.' by {
        if j > dot {
            lemma_digit_is_plain(suffix[j - dot]);
        }
    }
    assert forall|j: int| slash < j < out.len() implies out[j] != '/' by {
        if j >= dot + grown {
            assert(out[j] == path[j - grown]);
        }
    }
    lemma_last_index_is(out, '/', slash);
    assert forall|j: int| dot + grown < j < out.len() implies out[j] != '.' by {
        assert(out[j] == path[j - grown]);
    }
    lemma_last_index_is(out, '.', dot + grown);
    assert(extension_text(out) =~= extension_text(path));
    assert(out.subrange(0, slash + 1) =~= path.subrange(0, slash + 1));
    assert(file_name(out).len() > 2);
}

/// A suffixed path has at least three digits in front of the dot of its
/// extension.
pub proof fn lemma_suffixed_numbered(path: Seq<char>, number: nat)
    requires
        carries_extension(path),
    ensures
        numbered(suffixed(path, number)),
{
    lemma_suffixed_extension(path, number);
    lemma_suffixed_index(path, number);
    lemma_suffix_digits(number);
    let dot = final_dot(path);
    let suffix = suffix_text(number);
    let out = suffixed(path, number);
    let grown = suffix.len() as int;
    assert forall|i: int| 1 <= i <= 3 implies is_digit(#[trigger] out[dot + grown - i]) by {
        assert(out[dot + grown - i] == suffix[grown - i]);
    }
}

/// The characters of a suffixed path: those of the path up to the dot of
/// its extension, then the suffix, then the rest of the path.
proof fn lemma_suffixed_index(path: Seq<char>, number: nat)
    requires
        carries_extension(path),
    ensures
        0 < final_dot(path) < path.len(),
        suffixed(path, number).len() == path.len() + suffix_text(number).len(),
        forall|j: int|
            0 <= j < suffixed(path, number).len() ==> #[trigger] suffixed(path, number)[j] == (
            if j < final_dot(path) {
                path[j]
            } else if j < final_dot(path) + suffix_text(number).len() {
                suffix_text(number)[j - final_dot(path)]
            } else {
                path[j - suffix_text(number).len()]
            }),
{
    lemma_last_index_of(path, '.');
    lemma_last_index_of(path, '/');
    let dot = final_dot(path);
    let suffix = suffix_text(number);
    let out = suffixed(path, number);
    assert(out =~= path.subrange(0, dot) + suffix + path.subrange(dot, path.len() as int));
}

/// Two suffixed paths are the same only if they come from the same path and
/// the same number.
pub proof fn lemma_suffixed_injective_joint(p: Seq<char>, a: nat, q: Seq<char>, b: nat)
    requires
        carries_extension(p),
        carries_extension(q),
        suffixed(p, a) == suffixed(q, b),
    ensures
        p == q,
        a == b,
{
    lemma_suffixed_index(p, a);
    lemma_suffixed_index(q, b);
    lemma_suffixed_extension(p, a);
    lemma_suffixed_extension(q, b);
    lemma_suffix_digits(a);
    lemma_suffix_digits(b);
    let out = suffixed(p, a);
    let dot_p = final_dot(p);
    let dot_q = final_dot(q);
    let sa = suffix_text(a);
    let sb = suffix_text(b);
    let end = final_dot(out);
    let head = out.subrange(0, end);
    assert(end == dot_p + sa.len());
    assert(end == dot_q + sb.len());
    assert(head[dot_p] == '-') by {
        assert(head[dot_p] == out[dot_p]);
        assert(out[dot_p] == sa[0]);
    }
    assert forall|j: int| dot_p < j < head.len() implies head[j] != '-' by {
        assert(head[j] == out[j]);
        assert(out[j] == sa[j - dot_p]);
        lemma_digit_is_plain(sa[j - dot_p]);
    }
    lemma_last_index_is(head, '-', dot_p);
    assert(head[dot_q] == '-') by {
        assert(head[dot_q] == out[dot_q]);
        assert(out[dot_q] == sb[0]);
    }
    assert forall|j: int| dot_q < j < head.len() implies head[j] != '-' by {
        assert(head[j] == out[j]);
        assert(out[j] == sb[j - dot_q]);
        lemma_digit_is_plain(sb[j - dot_q]);
    }
    lemma_last_index_is(head, '-', dot_q);
    assert(dot_p == dot_q);
    assert(sa.len() == sb.len());
    assert(p.len() == q.len());
    assert forall|i: int| 0 <= i < p.len() implies p[i] == q[i] by {
        if i < dot_p {
            assert(p[i] == out[i]);
            assert(q[i] == out[i]);
        } else {
            assert(p[i] == out[i + sa.len()]);
            assert(q[i] == out[i + sb.len()]);
        }
    }
    assert(p =~= q);
    lemma_suffixed_injective(p, a, b);
}

} // verus!
