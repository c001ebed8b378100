//! Display formatting shared by every verb, and the one style vocabulary.
//!
//! stdout is an API: styling applies only when the caller says the target
//! stream is a terminal (`on`), and `--json` output is never clipped.
use vstd::prelude::*;

use crate::text::{chars_of, dec, is_whitespace, is_ws, push_all, push_dec, string_of};

verus! {

// ---------------------------------------------------------------- styling

/// An SGR escape sequence `ESC [ code m`.
pub open spec fn sgr(code: Seq<char>) -> Seq<char> {
    seq!['\x1b', '['] + code + seq!['m']
}

/// What `console` prints for `s` under a one-code style: either `s` itself
/// (colors disabled for stdout by the environment) or `s` between the
/// style's code and the reset code.
pub open spec fn styled_or_plain(code: Seq<char>, s: Seq<char>, r: Seq<char>) -> bool {
    r == s || r == sgr(code) + s + sgr(seq!['0'])
}

/// `console::Style::new().bold().apply_to(s).to_string()`: the bold code
/// around `s`, or `s` alone when console's own color detection is off.
#[verifier::external_body]
fn console_bold(s: &str) -> (r: String)
    ensures
        styled_or_plain(seq!['1'], s@, r@),
{
    console::Style::new().bold().apply_to(s).to_string()
}

/// `console::Style::new().dim().apply_to(s).to_string()`.
#[verifier::external_body]
fn console_dim(s: &str) -> (r: String)
    ensures
        styled_or_plain(seq!['2'], s@, r@),
{
    console::Style::new().dim().apply_to(s).to_string()
}

/// `console::Style::new().red().apply_to(s).to_string()`.
#[verifier::external_body]
fn console_red(s: &str) -> (r: String)
    ensures
        styled_or_plain(seq!['3', '1'], s@, r@),
{
    console::Style::new().red().apply_to(s).to_string()
}

/// `console::Style::new().cyan().apply_to(s).to_string()`.
#[verifier::external_body]
fn console_cyan(s: &str) -> (r: String)
    ensures
        styled_or_plain(seq!['3', '6'], s@, r@),
{
    console::Style::new().cyan().apply_to(s).to_string()
}

/// The four style roles.
#[derive(Clone, Copy, PartialEq, Eq, Debug, Structural)]
pub enum Role {
    /// bold headers
    Header,
    /// cyan identities (subjects, session ids)
    Accent,
    /// dim metadata
    Dim,
    /// red distrust signals
    Warn,
}

pub open spec fn role_code(r: Role) -> Seq<char> {
    match r {
        Role::Header => seq!['1'],
        Role::Dim => seq!['2'],
        Role::Warn => seq!['3', '1'],
        Role::Accent => seq!['3', '6'],
    }
}

/// Style `s` in `role` when `on` (the target stream is a terminal);
/// identity otherwise.
pub fn paint(on: bool, role: Role, s: &str) -> (r: String)
    ensures
        !on ==> r@ == s@,
        on ==> styled_or_plain(role_code(role), s@, r@),
{
    if on {
        match role {
            Role::Header => console_bold(s),
            Role::Accent => console_cyan(s),
            Role::Dim => console_dim(s),
            Role::Warn => console_red(s),
        }
    } else {
        s.to_owned()
    }
}

/// Bold header.
pub fn h1(on: bool, s: &str) -> (r: String)
    ensures
        !on ==> r@ == s@,
        on ==> styled_or_plain(role_code(Role::Header), s@, r@),
{
    paint(on, Role::Header, s)
}

/// Cyan identity (subject, session).
pub fn accent(on: bool, s: &str) -> (r: String)
    ensures
        !on ==> r@ == s@,
        on ==> styled_or_plain(role_code(Role::Accent), s@, r@),
{
    paint(on, Role::Accent, s)
}

/// Dim metadata.
pub fn dim(on: bool, s: &str) -> (r: String)
    ensures
        !on ==> r@ == s@,
        on ==> styled_or_plain(role_code(Role::Dim), s@, r@),
{
    paint(on, Role::Dim, s)
}

/// Red distrust signal.
pub fn warn(on: bool, s: &str) -> (r: String)
    ensures
        !on ==> r@ == s@,
        on ==> styled_or_plain(role_code(Role::Warn), s@, r@),
{
    paint(on, Role::Warn, s)
}

// ---------------------------------------------------------------- clipping

/// Whitespace collapse, as a left-to-right fold: the collapsed text so
/// far, and whether a whitespace run has been seen after its last word.
/// Runs between words become one space; leading and trailing runs vanish.
pub open spec fn collapse_state(s: Seq<char>) -> (Seq<char>, bool)
    decreases s.len(),
{
    if s.len() == 0 {
        (Seq::empty(), false)
    } else {
        let (out, pending) = collapse_state(s.drop_last());
        let c = s.last();
        if is_ws(c) {
            (out, out.len() > 0)
        } else if pending {
            (out.push(' ').push(c), false)
        } else {
            (out.push(c), false)
        }
    }
}

/// The words of `s` joined by single spaces.
pub open spec fn collapse(s: Seq<char>) -> Seq<char> {
    collapse_state(s).0
}

/// Display clipping: the collapsed text, cut to `max` characters with an
/// ellipsis appended when it was longer.
pub open spec fn clip_spec(s: Seq<char>, max: int) -> Seq<char> {
    let c = collapse(s);
    if c.len() <= max {
        c
    } else {
        c.take(max).push('…')
    }
}

/// Whitespace-collapse and truncate to `max` chars with an ellipsis.
/// Display-only: JSON output never clips.
pub fn clip(s: &str, max: usize) -> (r: String)
    ensures
        r@ == clip_spec(s@, max as int),
{
    let v = chars_of(s);
    let mut out: Vec<char> = Vec::new();
    let mut pending = false;
    let mut i: usize = 0;
    while i < v.len()
        invariant
            v@ == s@,
            i <= v@.len(),
            (out@, pending) == collapse_state(v@.take(i as int)),
            out@.len() <= 2 * i,
        decreases v@.len() - i,
    {
        let c = v[i];
        assert(v@.take(i + 1).drop_last() =~= v@.take(i as int));
        if is_whitespace(c) {
            pending = out.len() > 0;
        } else {
            if pending {
                out.push(' ');
                pending = false;
            }
            out.push(c);
        }
        i += 1;
    }
    assert(v@.take(v@.len() as int) =~= v@);
    if out.len() <= max {
        return string_of(&out);
    }
    let mut cut: Vec<char> = Vec::new();
    let mut k: usize = 0;
    while k < max
        invariant
            k <= max < out@.len(),
            cut@ == out@.take(k as int),
        decreases max - k,
    {
        cut.push(out[k]);
        assert(out@.take(k + 1) =~= out@.take(k as int).push(out@[k as int]));
        k += 1;
    }
    cut.push('…');
    string_of(&cut)
}

// ---------------------------------------------------------------- short forms

/// Index of the last `c` in `p` before position `end`, or -1.
pub open spec fn last_index_before(p: Seq<char>, c: char, end: int) -> int
    decreases end,
{
    if end <= 0 {
        -1
    } else if p[end - 1] == c {
        end - 1
    } else {
        last_index_before(p, c, end - 1)
    }
}

/// The last two path components behind an ellipsis (`…/dir/file.rs`) when
/// the path has at least two slashes; the path itself otherwise.
pub open spec fn short_path_spec(p: Seq<char>) -> Seq<char> {
    let i = last_index_before(p, '/', p.len() as int);
    let j = if i >= 0 { last_index_before(p, '/', i) } else { -1 };
    if j >= 0 {
        seq!['…', '/'] + p.skip(j + 1)
    } else {
        p
    }
}

pub proof fn lemma_last_index_before(p: Seq<char>, c: char, end: int)
    requires
        0 <= end <= p.len(),
    ensures
        -1 <= last_index_before(p, c, end) < end,
        last_index_before(p, c, end) >= 0 ==> p[last_index_before(p, c, end)] == c,
        forall|k: int| last_index_before(p, c, end) < k < end ==> p[k] != c,
    decreases end,
{
    if end > 0 {
        lemma_last_index_before(p, c, end - 1);
    }
}

/// Finds the last `c` before `end`, scanning backwards.
pub fn rfind_before(v: &[char], c: char, end: usize) -> (r: Option<usize>)
    requires
        end <= v@.len(),
    ensures
        r matches Some(i) ==> i == last_index_before(v@, c, end as int),
        r is None ==> last_index_before(v@, c, end as int) == -1,
{
    let mut k: usize = end;
    while k > 0
        invariant
            k <= end <= v@.len(),
            last_index_before(v@, c, end as int) == last_index_before(v@, c, k as int),
        decreases k,
    {
        if v[k - 1] == c {
            return Some(k - 1);
        }
        k -= 1;
    }
    None
}

/// Last two path components, elided: `…/dir/file.rs`.
pub fn short_path(p: &str) -> (r: String)
    ensures
        r@ == short_path_spec(p@),
{
    let v = chars_of(p);
    proof { lemma_last_index_before(v@, '/', v@.len() as int); }
    let j = match rfind_before(&v, '/', v.len()) {
        Some(i) => {
            proof { lemma_last_index_before(v@, '/', i as int); }
            rfind_before(&v, '/', i)
        },
        None => None,
    };
    if let Some(j) = j {
        let mut out: Vec<char> = Vec::new();
        out.push('…');
        out.push('/');
        let mut k: usize = j + 1;
        while k < v.len()
            invariant
                j + 1 <= k <= v@.len(),
                out@ == seq!['…', '/'] + v@.subrange(j + 1, k as int),
            decreases v@.len() - k,
        {
            out.push(v[k]);
            assert(v@.subrange(j + 1, k + 1) =~= v@.subrange(j + 1, k as int).push(v@[k as int]));
            k += 1;
        }
        assert(v@.subrange(j + 1, v@.len() as int) =~= v@.skip(j + 1));
        string_of(&out)
    } else {
        p.to_owned()
    }
}


// ---------------------------------------------------------------- ids and ages

/// First 8 chars of a session uuid.
pub fn short_sess(s: &str) -> (r: String)
    ensures
        r@ == s@.take(if s@.len() < 8 { s@.len() as int } else { 8 }),
{
    let v = chars_of(s);
    let n = if v.len() < 8 { v.len() } else { 8 };
    let head = crate::text::slice_of(&v, 0, n);
    assert(head@ =~= s@.take(n as int));
    string_of(&head)
}

/// The humanized age of an event `ts` seen at `now`.
pub open spec fn age_text(now: int, ts: int) -> Seq<char> {
    let d = if now > ts { now - ts } else { 0 };
    if d < 3_600_000 {
        seq!['<', '1', 'h']
    } else if d < 86_400_000 {
        dec((d / 3_600_000) as nat) + seq!['h']
    } else {
        dec((d / 86_400_000) as nat) + seq!['d']
    }
}

/// Humanized age: `<1h`, `7h`, `33d`.
pub fn age_label(now: u64, ts: u64) -> (r: String)
    ensures
        r@ == age_text(now as int, ts as int),
{
    let d = now.saturating_sub(ts);
    let mut v: Vec<char> = Vec::new();
    if d < 3_600_000 {
        v.push('<');
        v.push('1');
        v.push('h');
    } else if d < 86_400_000 {
        push_dec(&mut v, d / 3_600_000);
        v.push('h');
    } else {
        push_dec(&mut v, d / 86_400_000);
        v.push('d');
    }
    assert(v@ =~= age_text(now as int, ts as int));
    string_of(&v)
}

} // verus!
