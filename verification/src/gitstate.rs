//! Git-state stamping, so `cindex` can skip a rebuild when nothing has changed
//! and `csearch` can warn when the index is behind the working tree.
//!
//! Everything here is best-effort. Any git failure means "state unknown",
//! which callers treat conservatively: `cindex --if-changed` rebuilds, and
//! `csearch` simply stays quiet. The stamp is a sidecar next to the index
//! (`<index>.meta`); losing or mangling it only ever costs one extra rebuild,
//! so it needs no format versioning beyond a header line.

use vstd::arithmetic::div_mod::{
    lemma_mod_multiples_vanish, lemma_mul_mod_noop_left, lemma_small_mod,
};
use vstd::prelude::*;
use vstd::string::StringExecFns;
use vstd::utf8::{encode_utf8, encode_utf8_decode_utf8, encode_utf8_valid_utf8};

use crate::text::{
    char_lists, decimal, decimal_text, find_char, from_chars, index_of_char, is_at,
    law_lines, law_trim, lemma_decimal_ascii, lemma_find_char, lines, lines_of, same_text, to_chars, trim, trim_chars,
};
use crate::trigram::{lossy, lossy_text};

verus! {

/// The first line of a stamp.
pub const STAMP_HEADER: &'static str = "csearch-rs stamp 1";

/// The recorded git state of one indexed root: its `HEAD` and a fingerprint of
/// the working-tree changes (`git status --porcelain`), so that both a new
/// commit and an uncommitted edit count as a change.
#[derive(Debug, Clone, PartialEq, Eq)]
pub struct RootState {
    pub root: String,
    pub head: String,
    pub dirty: u64,
}

/// The state of a root, as a mathematical value.
pub struct State {
    pub root: Seq<char>,
    pub head: Seq<char>,
    pub dirty: u64,
}

impl View for RootState {
    type V = State;

    open spec fn view(&self) -> State {
        State { root: self.root@, head: self.head@, dirty: self.dirty }
    }
}

/// The values of states.
pub open spec fn states_of(v: Seq<RootState>) -> Seq<State> {
    Seq::new(v.len(), |i: int| v[i]@)
}

/// The 64-bit FNV-1a hash.
pub open spec fn fnv(bytes: Seq<u8>) -> u64
    decreases bytes.len(),
{
    if bytes.len() == 0 {
        0xcbf2_9ce4_8422_2325
    } else {
        (((fnv(bytes.drop_last()) ^ (bytes.last() as u64)) * 0x0000_0100_0000_01b3)
            % 0x1_0000_0000_0000_0000) as u64
    }
}

/// FNV-1a over the porcelain bytes: a cheap change fingerprint. A collision
/// would at worst skip one needed rebuild, which the next git event corrects.
pub fn fnv1a(bytes: &[u8]) -> (h: u64)
    ensures
        h == fnv(bytes@),
{
    let mut h: u64 = 0xcbf2_9ce4_8422_2325;
    let mut i: usize = 0;
    assert(bytes@.take(0) =~= seq![]);
    while i < bytes.len()
        invariant
            i <= bytes@.len(),
            h == fnv(bytes@.take(i as int)),
        decreases bytes@.len() - i,
    {
        assert(bytes@.take(i + 1).drop_last() =~= bytes@.take(i as int));
        h = (h ^ (bytes[i] as u64)).wrapping_mul(0x0000_0100_0000_01b3);
        i = i + 1;
    }
    assert(bytes@.take(i as int) =~= bytes@);
    h
}

/// What git printed, without the white space around it.
pub open spec fn answer(printed: Seq<u8>) -> Seq<char> {
    trim(lossy_text(printed))
}

fn clean_answer(printed: &[u8]) -> (r: String)
    ensures
        r@ == answer(printed@),
{
    from_chars(&trim_chars(&to_chars(&lossy(printed))))
}

/// Full state of `root` (HEAD + working-tree fingerprint), or `None` when it is
/// not a git repository or git cannot be run. `head` is what
/// `git rev-parse HEAD` printed and `status` what `git status --porcelain`
/// printed, where they succeeded.
pub fn current_state(root: &str, head: Option<&[u8]>, status: Option<&[u8]>) -> (r: Option<
    RootState,
>)
    ensures
        match (head, status) {
            (Some(h), Some(s)) => r matches Some(st) && st@ == (State {
                root: root@,
                head: answer(h@),
                dirty: fnv(s@),
            }),
            _ => r is None,
        },
{
    match (head, status) {
        (Some(h), Some(s)) => Some(
            RootState { root: root.to_owned(), head: clean_answer(h), dirty: fnv1a(s) },
        ),
        _ => None,
    }
}

/// Just `HEAD`: one cheap git call for the search-time staleness check, which
/// runs on every search and so must stay fast. `head` is what
/// `git rev-parse HEAD` printed, where it succeeded.
pub fn current_head(head: Option<&[u8]>) -> (r: Option<String>)
    ensures
        match head {
            Some(h) => r matches Some(s) && s@ == answer(h@),
            None => r is None,
        },
{
    match head {
        Some(h) => Some(clean_answer(h)),
        None => None,
    }
}

/// The stamp sidecar path for an index file.
pub fn stamp_path(index: &str) -> (r: String)
    ensures
        r@ == index@ + ".meta"@,
{
    index.to_owned().concat(".meta")
}

/// The line of a state: the head has no tab, the fingerprint is decimal, and
/// the root is last so that it may hold spaces and tabs.
pub open spec fn stamp_line(st: State) -> Seq<char> {
    st.head + seq!['\t'] + decimal(st.dirty as nat) + seq!['\t'] + st.root
}

/// The lines of states, each with a newline after it.
pub open spec fn stamp_lines(states: Seq<State>) -> Seq<char>
    decreases states.len(),
{
    if states.len() == 0 {
        seq![]
    } else {
        stamp_lines(states.drop_last()) + stamp_line(states.last()) + seq!['\n']
    }
}

/// The stamp of states.
pub open spec fn stamp_text(states: Seq<State>) -> Seq<char> {
    STAMP_HEADER@ + seq!['\n'] + stamp_lines(states)
}

/// The stamp that records the states of the git roots of an index, to be
/// written beside it; `None` if there is none, so that an old stamp is
/// removed and never lingers.
pub fn write_stamp(states: &[RootState]) -> (r: Option<String>)
    ensures
        match r {
            Some(text) => states@.len() > 0 && text@ == stamp_text(states_of(states@)),
            None => states@.len() == 0,
        },
{
    if states.len() == 0 {
        return None;
    }
    let ghost all = states_of(states@);
    let mut text = STAMP_HEADER.to_owned().concat("\n");
    let ghost head = text@;
    proof {
        reveal_strlit("\n");
        reveal_strlit("\t");
        assert("\n"@ =~= seq!['\n']);
        assert("\t"@ =~= seq!['\t']);
        assert(all.take(0) =~= seq![]);
        assert(head =~= STAMP_HEADER@ + seq!['\n']);
        assert(head + stamp_lines(all.take(0)) =~= head);
    }
    let mut i: usize = 0;
    while i < states.len()
        invariant
            i <= states@.len(),
            all == states_of(states@),
            "\n"@ == seq!['\n'],
            "\t"@ == seq!['\t'],
            text@ == head + stamp_lines(all.take(i as int)),
        decreases states@.len() - i,
    {
        let st = &states[i];
        let ghost so_far = text@;
        text.append(&st.head);
        text.append("\t");
        text.append(&decimal_text(st.dirty));
        text.append("\t");
        text.append(&st.root);
        text.append("\n");
        proof {
            assert(all.take(i + 1).drop_last() =~= all.take(i as int));
            assert(all.take(i + 1).last() == st@);
            assert(text@ =~= so_far + stamp_line(st@) + seq!['\n']);
            assert(text@ =~= head + stamp_lines(all.take(i + 1)));
        }
        i = i + 1;
    }
    assert(all.take(i as int) =~= all);
    Some(text)
}

/// Whether a character is a decimal digit.
pub open spec fn is_digit(c: char) -> bool {
    '0' <= c <= '9'
}

/// The number that decimal digits stand for.
pub open spec fn value(digits: Seq<char>) -> nat
    decreases digits.len(),
{
    if digits.len() == 0 {
        0
    } else {
        value(digits.drop_last()) * 10 + (digits.last() as u32 - '0' as u32) as nat
    }
}

/// A text without a plus sign before it.
pub open spec fn unsigned(s: Seq<char>) -> Seq<char> {
    if s.len() > 0 && s[0] == '+' {
        s.skip(1)
    } else {
        s
    }
}

/// Whether all characters are decimal digits.
pub open spec fn all_digits(s: Seq<char>) -> bool {
    forall|i: int| 0 <= i < s.len() ==> is_digit(#[trigger] s[i])
}

/// The number that a text stands for: decimal digits, with or without a plus
/// sign before them, of a number of at most 64 bits.
pub open spec fn number(s: Seq<char>) -> Option<u64> {
    let digits = unsigned(s);
    if digits.len() > 0 && all_digits(digits) && value(digits) <= u64::MAX {
        Some(value(digits) as u64)
    } else {
        None
    }
}

proof fn lemma_value_grows(s: Seq<char>, i: int)
    requires
        0 <= i <= s.len(),
        all_digits(s),
    ensures
        value(s.take(i)) <= value(s),
    decreases s.len() - i,
{
    if i < s.len() {
        lemma_value_grows(s, i + 1);
        assert(s.take(i + 1).drop_last() =~= s.take(i));
        assert(is_digit(s[i]));
    } else {
        assert(s.take(i) =~= s);
    }
}

/// The number that a text stands for.
pub fn parse_number(s: &[char]) -> (r: Option<u64>)
    ensures
        r == number(s@),
{
    let len: usize = s.len();
    let from: usize = if len > 0 && s[0] == '+' { 1 } else { 0 };
    let ghost digits = unsigned(s@);
    assert(digits =~= s@.skip(from as int));
    if from >= len {
        return None;
    }
    let mut n: u64 = 0;
    let mut i: usize = from;
    assert(digits.take(0) =~= seq![]);
    while i < len
        invariant
            from <= i <= len == s@.len(),
            from < len,
            digits == s@.skip(from as int),
            digits == unsigned(s@),
            forall|k: int| 0 <= k < i - from ==> is_digit(#[trigger] digits[k]),
            n == value(digits.take(i - from)),
        decreases len - i,
    {
        let c: char = s[i];
        assert(digits[i - from] == c);
        if c < '0' || c > '9' {
            assert(!is_digit(digits[i - from]));
            assert(!all_digits(digits));
            return None;
        }
        let d: u64 = c as u64 - '0' as u64;
        proof {
            assert(digits.take(i + 1 - from).drop_last() =~= digits.take(i - from));
            assert(digits.take(i + 1 - from).last() == c);
            assert(value(digits.take(i + 1 - from)) == n * 10 + d);
            if all_digits(digits) {
                lemma_value_grows(digits, i + 1 - from);
            }
        }
        if n > (u64::MAX - d) / 10 {
            return None;
        }
        n = n * 10 + d;
        i = i + 1;
    }
    assert(digits.take(i - from) =~= digits);
    Some(n)
}

/// The state on a line of a stamp: three fields with tabs between them.
pub open spec fn line_state(line: Seq<char>) -> Option<State> {
    let a = find_char(line, '\t');
    let rest = line.skip(a as int + 1);
    let b = find_char(rest, '\t');
    if a >= line.len() || b >= rest.len() {
        None
    } else {
        match number(rest.take(b as int)) {
            Some(dirty) => Some(
                State { root: rest.skip(b as int + 1), head: line.take(a as int), dirty },
            ),
            None => None,
        }
    }
}

/// The states on the lines that hold one.
pub open spec fn line_states(ls: Seq<Seq<char>>) -> Seq<State>
    decreases ls.len(),
{
    if ls.len() == 0 {
        seq![]
    } else {
        match line_state(ls.last()) {
            Some(st) => line_states(ls.drop_last()).push(st),
            None => line_states(ls.drop_last()),
        }
    }
}

/// The states that a stamp records.
pub open spec fn stamped_states(text: Seq<char>) -> Seq<State> {
    let ls = lines(text);
    if ls.len() == 0 || ls[0] != STAMP_HEADER@ {
        seq![]
    } else {
        line_states(ls.skip(1))
    }
}

/// The state on a line of a stamp.
fn read_line(line: &[char]) -> (r: Option<RootState>)
    ensures
        match r {
            Some(st) => line_state(line@) == Some(st@),
            None => line_state(line@) is None,
        },
{
    let len: usize = line.len();
    let a: usize = index_of_char(line, '\t', 0);
    assert(line@.skip(0) =~= line@);
    if a >= len {
        return None;
    }
    let ghost rest = line@.skip(a + 1);
    let b: usize = index_of_char(line, '\t', a + 1);
    if b >= len {
        return None;
    }
    proof {
        assert(rest.take(b - a - 1) =~= line@.subrange(a + 1, b as int));
        assert(rest.skip(b - a) =~= line@.subrange(b + 1, len as int));
        assert(line@.take(a as int) =~= line@.subrange(0, a as int));
    }
    match parse_number(&line[a + 1..b]) {
        Some(dirty) => Some(
            RootState {
                root: from_chars(&line[b + 1..len]),
                head: from_chars(&line[0..a]),
                dirty,
            },
        ),
        None => None,
    }
}

/// The states recorded in the stamp beside an index; empty if there is no
/// stamp or it cannot be parsed (treated as "unknown").
pub fn read_stamp(text: Option<&str>) -> (r: Vec<RootState>)
    ensures
        states_of(r@) == match text {
            Some(t) => stamped_states(t@),
            None => seq![],
        },
{
    let mut out: Vec<RootState> = Vec::new();
    assert(states_of(out@) =~= seq![]);
    let t = match text {
        Some(t) => t,
        None => {
            return out;
        },
    };
    let ls = lines_of(&to_chars(t));
    let ghost all = lines(t@);
    let header = to_chars(STAMP_HEADER);
    if ls.len() == 0 {
        return out;
    }
    proof {
        assert(char_lists(ls@)[0] == ls@[0]@);
        if ls@[0]@.len() == header@.len() {
            assert(ls@[0]@.subrange(0, header@.len() as int) =~= ls@[0]@);
        }
    }
    if ls[0].len() != header.len() || !is_at(&ls[0], &header, 0) {
        return out;
    }
    let ghost body = all.skip(1);
    let mut i: usize = 1;
    assert(body.take(0) =~= seq![]);
    while i < ls.len()
        invariant
            1 <= i <= ls@.len(),
            char_lists(ls@) == all,
            body == all.skip(1),
            states_of(out@) == line_states(body.take(i - 1)),
        decreases ls@.len() - i,
    {
        let ghost so_far = states_of(out@);
        proof {
            assert(body.take(i as int).drop_last() =~= body.take(i - 1));
            assert(body.take(i as int).last() == char_lists(ls@)[i as int]);
        }
        if let Some(st) = read_line(&ls[i]) {
            out.push(st);
            assert(states_of(out@) =~= so_far.push(st@));
        }
        i = i + 1;
    }
    assert(body.take(i - 1) =~= body);
    out
}

/// The first of the states that is that of `root`.
pub open spec fn state_of(states: Seq<State>, root: Seq<char>) -> Option<State>
    decreases states.len(),
{
    if states.len() == 0 {
        None
    } else if states[0].root == root {
        Some(states[0])
    } else {
        state_of(states.skip(1), root)
    }
}

/// Whether the state of a root is the one that was recorded.
pub open spec fn unchanged(stamped: Seq<State>, root: Seq<char>, now: Option<State>) -> bool {
    match (state_of(stamped, root), now) {
        (Some(then), Some(cur)) => then.head == cur.head && then.dirty == cur.dirty,
        _ => false,
    }
}

/// The value of a state that may be unknown.
pub open spec fn known_state(s: Option<RootState>) -> Option<State> {
    match s {
        Some(st) => Some(st@),
        None => None,
    }
}

/// Whether root `root` is among the given ones.
pub open spec fn is_given(roots: Seq<(String, Option<RootState>)>, root: Seq<char>) -> bool {
    exists|i: int| 0 <= i < roots.len() && (#[trigger] roots[i]).0@ == root
}

/// Whether an index that covers exactly the roots is still current: the stamp
/// names the given roots and no others, and each is in the state recorded.
pub open spec fn up_to_date(stamped: Seq<State>, roots: Seq<(String, Option<RootState>)>) -> bool {
    &&& stamped.len() > 0
    &&& stamped.len() == roots.len()
    &&& forall|i: int|
        0 <= i < roots.len() ==> unchanged(
            stamped,
            (#[trigger] roots[i]).0@,
            known_state(roots[i].1),
        )
    &&& forall|k: int|
        0 <= k < stamped.len() ==> is_given(roots, (#[trigger] stamped[k]).root)
}

/// Whether root `root` is among the given ones.
fn names_root(roots: &[(String, Option<RootState>)], root: &str) -> (r: bool)
    ensures
        r == is_given(roots@, root@),
{
    let mut i: usize = 0;
    while i < roots.len()
        invariant
            i <= roots@.len(),
            forall|k: int| 0 <= k < i ==> (#[trigger] roots@[k]).0@ != root@,
        decreases roots@.len() - i,
    {
        if same_text(&roots[i].0, root) {
            assert(roots@[i as int].0@ == root@);
            return true;
        }
        i = i + 1;
    }
    false
}

/// Whether the state of a root is the one that was recorded.
fn is_unchanged(stamped: &[RootState], root: &str, now: &Option<RootState>) -> (r: bool)
    ensures
        r == unchanged(states_of(stamped@), root@, known_state(*now)),
{
    let ghost all = states_of(stamped@);
    let cur = match now {
        Some(c) => c,
        None => {
            // A root that is not known to git cannot be proven unchanged.
            return false;
        },
    };
    let mut i: usize = 0;
    assert(all.skip(0) =~= all);
    while i < stamped.len()
        invariant
            i <= stamped@.len(),
            all == states_of(stamped@),
            state_of(all, root@) == state_of(all.skip(i as int), root@),
            *now == Some(*cur),
        decreases stamped@.len() - i,
    {
        assert(all.skip(i as int)[0] == stamped@[i as int]@);
        assert(all.skip(i as int).skip(1) =~= all.skip(i + 1));
        if same_text(&stamped[i].root, root) {
            return same_text(&stamped[i].head, &cur.head) && stamped[i].dirty == cur.dirty;
        }
        i = i + 1;
    }
    false
}

/// Whether an index covering exactly the given roots is still current: there
/// is a stamp, it names the same roots, and every one is a git repository
/// whose state is unchanged. `roots` gives each root with its state, where git
/// knows it. Anything unknown returns `false`: rebuild, never risk a stale
/// skip.
pub fn is_current(stamped: &[RootState], roots: &[(String, Option<RootState>)]) -> (r: bool)
    ensures
        r == up_to_date(states_of(stamped@), roots@),
{
    if stamped.len() == 0 || stamped.len() != roots.len() {
        return false;
    }
    let ghost all = states_of(stamped@);
    let mut i: usize = 0;
    while i < roots.len()
        invariant
            i <= roots@.len() == stamped@.len(),
            stamped@.len() > 0,
            all == states_of(stamped@),
            forall|k: int|
                0 <= k < i ==> unchanged(all, (#[trigger] roots@[k]).0@, known_state(roots@[k].1)),
        decreases roots@.len() - i,
    {
        if !is_unchanged(stamped, &roots[i].0, &roots[i].1) {
            assert(!unchanged(all, roots@[i as int].0@, known_state(roots@[i as int].1)));
            return false;
        }
        i = i + 1;
    }
    let mut k: usize = 0;
    while k < stamped.len()
        invariant
            k <= stamped@.len() == roots@.len(),
            stamped@.len() > 0,
            all == states_of(stamped@),
            forall|i: int|
                0 <= i < roots@.len() ==> unchanged(
                    all,
                    (#[trigger] roots@[i]).0@,
                    known_state(roots@[i].1),
                ),
            forall|j: int| 0 <= j < k ==> is_given(roots@, (#[trigger] all[j]).root),
        decreases stamped@.len() - k,
    {
        if !names_root(roots, &stamped[k].root) {
            assert(!is_given(roots@, all[k as int].root));
            return false;
        }
        k = k + 1;
    }
    true
}

/// How many of the stamped roots have moved to another `HEAD`. A head that is
/// not known counts as unmoved.
pub open spec fn behind(stamped: Seq<State>, heads: Seq<Option<String>>) -> nat
    decreases stamped.len(),
{
    if stamped.len() == 0 {
        0
    } else {
        behind(stamped.drop_last(), heads) + match heads[stamped.len() - 1] {
            Some(h) => if h@ != stamped.last().head {
                1nat
            } else {
                0
            },
            None => 0,
        }
    }
}

/// A one-line staleness message if any stamped root's `HEAD` has moved since
/// the index was built, else `None`. HEAD-only so it stays cheap on the search
/// path; uncommitted edits are not flagged here (a git event, and its hook, is
/// what refreshes the index). `heads` gives the current `HEAD` of each stamped
/// root, where git knows it.
pub fn staleness(stamped: &[RootState], heads: &[Option<String>]) -> (r: Option<String>)
    requires
        heads@.len() == stamped@.len(),
    ensures
        ({
            let n = behind(states_of(stamped@), heads@);
            match r {
                None => n == 0,
                Some(m) => n > 0 && m@ == if n == 1 {
                    "csearch: the index is behind HEAD in 1 root -- run cindex to refresh"@
                } else {
                    "csearch: the index is behind HEAD in "@ + decimal(n)
                        + " roots -- run cindex to refresh"@
                },
            }
        }),
{
    let ghost all = states_of(stamped@);
    let mut n: usize = 0;
    let mut i: usize = 0;
    assert(all.take(0) =~= seq![]);
    while i < stamped.len()
        invariant
            i <= stamped@.len(),
            heads@.len() == stamped@.len(),
            all == states_of(stamped@),
            n <= i,
            n == behind(all.take(i as int), heads@),
        decreases stamped@.len() - i,
    {
        proof {
            assert(all.take(i + 1).drop_last() =~= all.take(i as int));
            assert(all.take(i + 1).last() == stamped@[i as int]@);
        }
        if let Some(h) = &heads[i] {
            if !same_text(h, &stamped[i].head) {
                n = n + 1;
            }
        }
        i = i + 1;
    }
    assert(all.take(i as int) =~= all);
    if n == 0 {
        None
    } else if n == 1 {
        Some("csearch: the index is behind HEAD in 1 root -- run cindex to refresh".to_owned())
    } else {
        Some(
            "csearch: the index is behind HEAD in ".to_owned().concat(
                &decimal_text(n as u64),
            ).concat(" roots -- run cindex to refresh"),
        )
    }
}

/// A number is read back from its digits.
pub proof fn law_number_read_back(n: u64)
    ensures
        number(decimal(n as nat)) == Some(n),
{
    let d = decimal(n as nat);
    lemma_decimal_ascii(n as nat);
    lemma_value_decimal(n as nat);
    assert('0' <= d[0]);
    assert(unsigned(d) == d);
    assert forall|i: int| 0 <= i < d.len() implies is_digit(#[trigger] d[i]) by {}
}

proof fn lemma_value_decimal(n: nat)
    ensures
        value(decimal(n)) == n,
    decreases n,
{
    let d = decimal(n);
    if n < 10 {
        assert(d.drop_last() =~= seq![]);
        reveal_with_fuel(value, 2);
    } else {
        lemma_value_decimal(n / 10);
        assert(d.drop_last() =~= decimal(n / 10));
    }
}

/// Whether a state can be recorded on a line: no newline in it, no tab in the
/// head, and no carriage return at the end of the line.
pub open spec fn recordable(st: State) -> bool {
    &&& !st.head.contains('\t')
    &&& !st.head.contains('\n')
    &&& !st.root.contains('\n')
    &&& st.root.len() == 0 || st.root.last() != '\r'
}

proof fn lemma_line_state(st: State)
    requires
        recordable(st),
    ensures
        line_state(stamp_line(st)) == Some(st),
{
    let line = stamp_line(st);
    let d = decimal(st.dirty as nat);
    lemma_decimal_ascii(st.dirty as nat);
    let a = st.head.len();
    assert forall|j: int| 0 <= j < a implies line[j] != '\t' by {
        assert(line[j] == st.head[j]);
        assert(st.head.contains(st.head[j]));
    }
    lemma_find_char(line, '\t', a);
    let rest = line.skip(a as int + 1);
    assert(rest =~= d + seq!['\t'] + st.root);
    assert forall|j: int| 0 <= j < d.len() implies rest[j] != '\t' by {
        assert(rest[j] == d[j]);
    }
    lemma_find_char(rest, '\t', d.len());
    assert(rest.take(d.len() as int) =~= d);
    law_number_read_back(st.dirty);
    assert(rest.skip(d.len() as int + 1) =~= st.root);
    assert(line.take(a as int) =~= st.head);
}

proof fn lemma_stamp_line_plain(st: State)
    requires
        recordable(st),
    ensures
        !stamp_line(st).contains('\n'),
        stamp_line(st).len() > 0,
        stamp_line(st).last() != '\r',
{
    let line = stamp_line(st);
    let d = decimal(st.dirty as nat);
    lemma_decimal_ascii(st.dirty as nat);
    let (a, b) = (st.head.len() as int, d.len() as int);
    assert forall|j: int| 0 <= j < line.len() implies line[j] != '\n' by {
        if j < a {
            assert(line[j] == st.head[j]);
            assert(st.head.contains(st.head[j]));
        } else if j == a || j == a + 1 + b {
        } else if j < a + 1 + b {
            assert(line[j] == d[j - a - 1]);
        } else {
            assert(line[j] == st.root[j - a - b - 2]);
            assert(st.root.contains(st.root[j - a - b - 2]));
        }
    }
    if st.root.len() > 0 {
        assert(line.last() == st.root.last());
    } else {
        assert(line.last() == '\t');
    }
}

/// A line and what follows it.
proof fn lemma_lines_first(line: Seq<char>, rest: Seq<char>)
    requires
        !line.contains('\n'),
        line.len() > 0 ==> line.last() != '\r',
    ensures
        lines(line + seq!['\n'] + rest) == seq![line] + lines(rest),
{
    let s = line + seq!['\n'] + rest;
    let n = line.len();
    assert forall|j: int| 0 <= j < n implies s[j] != '\n' by {
        assert(s[j] == line[j]);
        assert(line.contains(line[j]));
    }
    lemma_find_char(s, '\n', n);
    assert(s.take(n as int) =~= line);
    assert(s.skip(n as int + 1) =~= rest);
}

/// The stamp lines of states, read from the front.
proof fn lemma_stamp_lines_first(states: Seq<State>)
    requires
        states.len() > 0,
    ensures
        stamp_lines(states) == stamp_line(states[0]) + seq!['\n'] + stamp_lines(states.skip(1)),
    decreases states.len(),
{
    let short = states.drop_last();
    if states.len() == 1 {
        assert(short =~= seq![]);
        assert(states.skip(1) =~= seq![]);
        assert(stamp_lines(states) =~= stamp_line(states[0]) + seq!['\n'] + stamp_lines(
            states.skip(1),
        ));
    } else {
        lemma_stamp_lines_first(short);
        assert(states.skip(1).drop_last() =~= short.skip(1));
        assert(stamp_lines(states) =~= stamp_line(states[0]) + seq!['\n'] + stamp_lines(
            states.skip(1),
        ));
    }
}

proof fn lemma_lines_of_stamp(states: Seq<State>)
    requires
        forall|i: int| 0 <= i < states.len() ==> recordable(#[trigger] states[i]),
    ensures
        lines(stamp_lines(states)) == Seq::new(states.len(), |i: int| stamp_line(states[i])),
    decreases states.len(),
{
    let want = Seq::new(states.len(), |i: int| stamp_line(states[i]));
    if states.len() == 0 {
        assert(lines(stamp_lines(states)) =~= want);
    } else {
        lemma_stamp_lines_first(states);
        lemma_stamp_line_plain(states[0]);
        lemma_lines_first(stamp_line(states[0]), stamp_lines(states.skip(1)));
        lemma_lines_of_stamp(states.skip(1));
        assert(lines(stamp_lines(states)) =~= want);
    }
}

proof fn lemma_line_states_of(states: Seq<State>)
    requires
        forall|i: int| 0 <= i < states.len() ==> recordable(#[trigger] states[i]),
    ensures
        line_states(Seq::new(states.len(), |i: int| stamp_line(states[i]))) == states,
    decreases states.len(),
{
    let ls = Seq::new(states.len(), |i: int| stamp_line(states[i]));
    if states.len() == 0 {
        assert(line_states(ls) =~= states);
    } else {
        let short = states.drop_last();
        lemma_line_states_of(short);
        lemma_line_state(states.last());
        assert(ls.drop_last() =~= Seq::new(short.len(), |i: int| stamp_line(short[i])));
        assert(line_states(ls) =~= states);
    }
}

/// What a stamp records is read back.
pub proof fn law_stamp_read_back(states: Seq<State>)
    requires
        forall|i: int| 0 <= i < states.len() ==> recordable(#[trigger] states[i]),
    ensures
        stamped_states(stamp_text(states)) == states,
{
    reveal_strlit("csearch-rs stamp 1");
    let body = stamp_lines(states);
    assert(!STAMP_HEADER@.contains('\n')) by {
        assert forall|j: int| 0 <= j < STAMP_HEADER@.len() implies STAMP_HEADER@[j] != '\n' by {}
    }
    lemma_lines_first(STAMP_HEADER@, body);
    lemma_lines_of_stamp(states);
    lemma_line_states_of(states);
    let ls = lines(stamp_text(states));
    assert(ls.skip(1) =~= lines(body));
    assert(ls[0] == STAMP_HEADER@);
}

proof fn lemma_state_found(states: Seq<State>, i: int)
    requires
        0 <= i < states.len(),
        forall|a: int, b: int|
            0 <= a < b < states.len() ==> (#[trigger] states[a]).root != (#[trigger] states[b]).root,
    ensures
        state_of(states, states[i].root) == Some(states[i]),
    decreases i,
{
    if i > 0 {
        assert(states[0].root != states[i].root);
        let rest = states.skip(1);
        assert(rest[i - 1] == states[i]);
        lemma_state_found(rest, i - 1);
    }
}

/// An index is current as long as no root changes: with the states that were
/// recorded, of distinct roots, it is up to date.
pub proof fn law_current_until_changed(stamped: Seq<State>, roots: Seq<(String, Option<RootState>)>)
    requires
        stamped.len() > 0,
        stamped.len() == roots.len(),
        forall|a: int, b: int|
            0 <= a < b < stamped.len() ==> (#[trigger] stamped[a]).root != (
            #[trigger] stamped[b]).root,
        forall|i: int|
            0 <= i < roots.len() ==> (#[trigger] roots[i]).0@ == stamped[i].root && known_state(
                roots[i].1,
            ) == Some(stamped[i]),
    ensures
        up_to_date(stamped, roots),
{
    assert forall|i: int| 0 <= i < roots.len() implies unchanged(
        stamped,
        (#[trigger] roots[i]).0@,
        known_state(roots[i].1),
    ) by {
        lemma_state_found(stamped, i);
    }
    assert forall|k: int| 0 <= k < stamped.len() implies is_given(
        roots,
        (#[trigger] stamped[k]).root,
    ) by {
        assert(roots[k].0@ == stamped[k].root);
    }
}

proof fn lemma_state_recorded(states: Seq<State>, root: Seq<char>)
    ensures
        match state_of(states, root) {
            Some(st) => st.root == root && states.contains(st),
            None => true,
        },
    decreases states.len(),
{
    if states.len() > 0 {
        let rest = states.skip(1);
        lemma_state_recorded(rest, root);
        if states[0].root == root {
            assert(states.contains(states[0]));
        } else if let Some(st) = state_of(rest, root) {
            let k = choose|k: int| 0 <= k < rest.len() && rest[k] == st;
            assert(states[k + 1] == st);
        }
    }
}

/// A rebuild is never skipped when it might be needed: where an index counts as
/// current, the state of every root is known, it is one that the stamp records
/// for that root, and every root that the stamp names is among those given.
pub proof fn law_skip_only_unchanged(
    stamped: Seq<State>,
    roots: Seq<(String, Option<RootState>)>,
    i: int,
)
    requires
        up_to_date(stamped, roots),
        0 <= i < roots.len(),
    ensures
        known_state(roots[i].1) is Some,
        exists|st: State| #[trigger]
            stamped.contains(st) && st.root == roots[i].0@ && st.head == known_state(
                roots[i].1,
            ).unwrap().head && st.dirty == known_state(roots[i].1).unwrap().dirty,
        forall|k: int| 0 <= k < stamped.len() ==> is_given(roots, (#[trigger] stamped[k]).root),
{
    assert(unchanged(stamped, roots[i].0@, known_state(roots[i].1)));
    lemma_state_recorded(stamped, roots[i].0@);
    let st = state_of(stamped, roots[i].0@).unwrap();
    assert(stamped.contains(st));
}

/// Multiplication by the odd factor of the hash loses nothing.
proof fn lemma_factor_injective(x: u64, y: u64)
    requires
        (x * 0x0000_0100_0000_01b3) % 0x1_0000_0000_0000_0000 == (y * 0x0000_0100_0000_01b3)
            % 0x1_0000_0000_0000_0000,
    ensures
        x == y,
{
    let m: int = 0x1_0000_0000_0000_0000;
    let p: int = 0x0000_0100_0000_01b3;
    let inv: int = 14886173955864302971;
    let k: int = 887285111055;
    assert(p * inv == 1 + k * m);
    lemma_undone(x as int, p, inv, k, m);
    lemma_undone(y as int, p, inv, k, m);
}

proof fn lemma_undone(x: int, p: int, inv: int, k: int, m: int)
    requires
        0 <= x < m,
        p * inv == 1 + k * m,
    ensures
        (((x * p) % m) * inv) % m == x,
{
    lemma_mul_mod_noop_left(x * p, inv, m);
    assert((x * p) * inv == x + (x * k) * m) by (nonlinear_arith)
        requires
            p * inv == 1 + k * m,
    ;
    lemma_mod_multiples_vanish(x * k, x, m);
    lemma_small_mod(x as nat, m as nat);
    assert(m * (x * k) + x == x + (x * k) * m) by (nonlinear_arith);
}

proof fn lemma_xor_injective(h: u64, g: u64, a: u8, b: u8)
    ensures
        h ^ (a as u64) == g ^ (a as u64) ==> h == g,
        h ^ (a as u64) == h ^ (b as u64) ==> a == b,
{
    assert(h ^ (a as u64) == g ^ (a as u64) ==> h == g) by (bit_vector);
    assert(h ^ (a as u64) == h ^ (b as u64) ==> a == b) by (bit_vector);
}

/// What follows a change never hides it: two statuses that go on alike have the
/// same fingerprint if and only if they had the same before.
pub proof fn law_fingerprint_keeps_differences(a: Seq<u8>, b: Seq<u8>, rest: Seq<u8>)
    ensures
        fnv(a + rest) == fnv(b + rest) <==> fnv(a) == fnv(b),
    decreases rest.len(),
{
    if rest.len() == 0 {
        assert(a + rest =~= a);
        assert(b + rest =~= b);
    } else {
        let short = rest.drop_last();
        let c = rest.last();
        law_fingerprint_keeps_differences(a, b, short);
        assert((a + rest).drop_last() =~= a + short);
        assert((b + rest).drop_last() =~= b + short);
        assert((a + rest).last() == c && (b + rest).last() == c);
        let (h, g) = (fnv(a + short), fnv(b + short));
        if fnv(a + rest) == fnv(b + rest) {
            lemma_factor_injective(h ^ (c as u64), g ^ (c as u64));
            lemma_xor_injective(h, g, c, c);
        }
    }
}

/// Every byte of a status counts: two that differ in exactly one byte, at
/// whatever place, have different fingerprints.
pub proof fn law_every_byte_counts(status: Seq<u8>, i: int, byte: u8)
    requires
        0 <= i < status.len(),
        status[i] != byte,
    ensures
        fnv(status) != fnv(status.update(i, byte)),
{
    let other = status.update(i, byte);
    let before = status.take(i);
    let (a, b) = (before.push(status[i]), before.push(byte));
    let rest = status.skip(i + 1);
    assert(status =~= a + rest);
    assert(other =~= b + rest);
    assert(a.drop_last() =~= before && b.drop_last() =~= before);
    let h = fnv(before);
    if fnv(a) == fnv(b) {
        lemma_factor_injective(h ^ (status[i] as u64), h ^ (byte as u64));
        lemma_xor_injective(h, h, status[i], byte);
    }
    law_fingerprint_keeps_differences(a, b, rest);
}

/// An edit is noticed: an index whose stamp records a root with one fingerprint
/// is not current once the root has another, or another `HEAD`, or a state that
/// is not known.
pub proof fn law_change_is_noticed(
    stamped: Seq<State>,
    roots: Seq<(String, Option<RootState>)>,
    k: int,
    i: int,
)
    requires
        0 <= k < stamped.len(),
        0 <= i < roots.len(),
        roots[i].0@ == stamped[k].root,
        forall|j: int| 0 <= j < stamped.len() && j != k ==> (#[trigger] stamped[j]).root
            != stamped[k].root,
        match roots[i].1 {
            Some(now) => now.dirty != stamped[k].dirty || now.head@ != stamped[k].head,
            None => true,
        },
    ensures
        !up_to_date(stamped, roots),
{
    lemma_state_recorded(stamped, roots[i].0@);
    if up_to_date(stamped, roots) {
        assert(unchanged(stamped, roots[i].0@, known_state(roots[i].1)));
        let st = state_of(stamped, roots[i].0@).unwrap();
        let j = choose|j: int| 0 <= j < stamped.len() && stamped[j] == st;
        assert(j == k);
    }
}

/// An index is not current for roots other than those that it was built of:
/// neither for one that the stamp does not name, nor without one that it does,
/// nor where there is no stamp.
pub proof fn law_other_roots_are_noticed(
    stamped: Seq<State>,
    roots: Seq<(String, Option<RootState>)>,
)
    requires
        up_to_date(stamped, roots),
    ensures
        stamped.len() > 0,
        stamped.len() == roots.len(),
        forall|i: int|
            0 <= i < roots.len() ==> stamped.map_values(|st: State| st.root).contains(
                (#[trigger] roots[i]).0@,
            ),
        forall|k: int|
            0 <= k < stamped.len() ==> roots.map_values(
                |r: (String, Option<RootState>)| r.0@,
            ).contains((#[trigger] stamped[k]).root),
{
    let then = stamped.map_values(|st: State| st.root);
    let now = roots.map_values(|r: (String, Option<RootState>)| r.0@);
    assert forall|i: int| 0 <= i < roots.len() implies then.contains(
        (#[trigger] roots[i]).0@,
    ) by {
        assert(unchanged(stamped, roots[i].0@, known_state(roots[i].1)));
        lemma_state_recorded(stamped, roots[i].0@);
        let st = state_of(stamped, roots[i].0@).unwrap();
        let k = choose|k: int| 0 <= k < stamped.len() && stamped[k] == st;
        assert(then[k] == roots[i].0@);
    }
    assert forall|k: int| 0 <= k < stamped.len() implies now.contains(
        (#[trigger] stamped[k]).root,
    ) by {
        assert(is_given(roots, stamped[k].root));
        let i = choose|i: int| 0 <= i < roots.len() && (#[trigger] roots[i]).0@ == stamped[k].root;
        assert(now[i] == stamped[k].root);
    }
}

/// Whether the `HEAD` of the stamped root `i` is known, and is another one.
pub open spec fn has_moved(stamped: Seq<State>, heads: Seq<Option<String>>, i: int) -> bool {
    match heads[i] {
        Some(h) => h@ != stamped[i].head,
        None => false,
    }
}

/// The roots that are behind are all those whose `HEAD` has moved, each counted
/// once.
pub proof fn law_behind(stamped: Seq<State>, heads: Seq<Option<String>>)
    ensures
        behind(stamped, heads) == Set::new(
            |i: int| 0 <= i < stamped.len() && has_moved(stamped, heads, i),
        ).len(),
        behind(stamped, heads) == 0 <==> forall|i: int|
            0 <= i < stamped.len() ==> !(#[trigger] has_moved(stamped, heads, i)),
{
    lemma_behind(stamped, heads);
    let all = Set::new(|i: int| 0 <= i < stamped.len() && has_moved(stamped, heads, i));
    if behind(stamped, heads) == 0 {
        assert forall|i: int| 0 <= i < stamped.len() implies !(#[trigger] has_moved(
            stamped,
            heads,
            i,
        )) by {
            assert(!all.contains(i));
        }
    }
    if forall|i: int| 0 <= i < stamped.len() ==> !(#[trigger] has_moved(stamped, heads, i)) {
        assert(all =~= Set::empty());
    }
}

proof fn lemma_behind(stamped: Seq<State>, heads: Seq<Option<String>>)
    ensures
        ({
            let all = Set::new(
                |i: int| 0 <= i < stamped.len() && has_moved(stamped, heads, i),
            );
            all.finite() && behind(stamped, heads) == all.len()
        }),
    decreases stamped.len(),
{
    let all = Set::new(|i: int| 0 <= i < stamped.len() && has_moved(stamped, heads, i));
    if stamped.len() == 0 {
        assert(all =~= Set::empty());
    } else {
        let short = stamped.drop_last();
        let n = short.len() as int;
        let before = Set::new(|i: int| 0 <= i < short.len() && has_moved(short, heads, i));
        lemma_behind(short, heads);
        assert forall|i: int| 0 <= i < n implies has_moved(short, heads, i) == has_moved(
            stamped,
            heads,
            i,
        ) by {}
        if has_moved(stamped, heads, n) {
            assert(all =~= before.insert(n));
        } else {
            assert(all =~= before);
        }
    }
}

/// The digits of a number stand for it, and the first is no zero unless it is
/// the only one.
pub proof fn law_digits(n: nat)
    ensures
        value(decimal(n)) == n,
        all_digits(decimal(n)),
        decimal(n).len() > 1 ==> decimal(n)[0] != '0',
    decreases n,
{
    lemma_value_decimal(n);
    lemma_decimal_ascii(n);
    if n >= 10 {
        law_digits(n / 10);
        lemma_decimal_ascii(n / 10);
        if n / 10 < 10 {
            let d = (48 + n / 10) as u8;
            assert(d != 48);
            assert(decimal(n / 10)[0] == d as char);
            assert(d as char != '0');
        } else {
            lemma_decimal_ascii(n / 10 / 10);
        }
        assert(decimal(n)[0] == decimal(n / 10)[0]);
    }
}

/// A line of a stamp is read by its first two tabs: what stands before the
/// first is the head, what stands between them the fingerprint, and all that
/// follows the root. With fewer tabs, or no number between them, it records
/// nothing.
pub proof fn law_stamp_line(head: Seq<char>, digits: Seq<char>, root: Seq<char>)
    requires
        !head.contains('\t'),
        !digits.contains('\t'),
    ensures
        line_state(head) is None,
        line_state(head + seq!['\t'] + digits) is None,
        line_state(head + seq!['\t'] + digits + seq!['\t'] + root) == match number(digits) {
            Some(dirty) => Some(State { root, head, dirty }),
            None => None,
        },
{
    let n = head.len();
    let m = digits.len();
    let short = head + seq!['\t'] + digits;
    let line = short + seq!['\t'] + root;
    assert forall|j: int| 0 <= j < n implies head[j] != '\t' by {
        assert(head.contains(head[j]));
    }
    assert forall|j: int| 0 <= j < m implies digits[j] != '\t' by {
        assert(digits.contains(digits[j]));
    }
    lemma_find_char(head, '\t', n);
    assert forall|j: int| 0 <= j < n implies short[j] != '\t' && line[j] != '\t' by {
        assert(short[j] == head[j] && line[j] == head[j]);
    }
    assert(short[n as int] == '\t' && line[n as int] == '\t');
    lemma_find_char(short, '\t', n);
    lemma_find_char(line, '\t', n);
    assert(short.skip(n as int + 1) =~= digits);
    lemma_find_char(digits, '\t', m);
    let rest = line.skip(n as int + 1);
    assert(rest =~= digits + seq!['\t'] + root);
    assert forall|j: int| 0 <= j < m implies rest[j] != '\t' by {
        assert(rest[j] == digits[j]);
    }
    assert(rest[m as int] == '\t');
    lemma_find_char(rest, '\t', m);
    assert(rest.take(m as int) =~= digits);
    assert(rest.skip(m as int + 1) =~= root);
    assert(line.take(n as int) =~= head);
}

/// Only a text whose first line is the header is a stamp, and its other lines
/// are read one by one, in order.
pub proof fn law_stamp_header(first: Seq<char>, rest: Seq<char>)
    requires
        !first.contains('\n'),
        first.len() > 0 ==> first.last() != '\r',
    ensures
        first != "csearch-rs stamp 1"@ ==> stamped_states(first + seq!['\n'] + rest).len() == 0,
        first == "csearch-rs stamp 1"@ ==> stamped_states(first + seq!['\n'] + rest) == line_states(
            lines(rest),
        ),
{
    law_lines(first, rest);
    let ls = lines(first + seq!['\n'] + rest);
    assert(ls[0] == first);
    assert(ls.skip(1) =~= lines(rest));
}

/// The lines of a stamp are read one by one, in order.
pub proof fn law_stamp_lines_in_order(a: Seq<Seq<char>>, b: Seq<Seq<char>>, line: Seq<char>)
    ensures
        line_states(a + b) == line_states(a) + line_states(b),
        line_states(seq![line]) == match line_state(line) {
            Some(st) => seq![st],
            None => seq![],
        },
    decreases b.len(),
{
    let one = seq![line];
    let none: Seq<State> = seq![];
    assert(one.drop_last() =~= seq![]);
    assert(one.last() == line);
    assert(line_states(one.drop_last()) == none);
    if let Some(st) = line_state(line) {
        assert(none.push(st) =~= seq![st]);
    }
    if b.len() == 0 {
        assert(a + b =~= a);
        assert(line_states(a) + line_states(b) =~= line_states(a));
    } else {
        law_stamp_lines_in_order(a, b.drop_last(), line);
        assert((a + b).drop_last() =~= a + b.drop_last());
        assert((a + b).last() == b.last());
        assert(line_states(a + b) =~= line_states(a) + line_states(b));
    }
}

/// The `HEAD` that git prints, on a line of its own, is read as it stands.
pub proof fn law_head_is_read(head: Seq<char>)
    requires
        head.len() > 0,
        33 <= head[0] as u32 <= 126,
        33 <= head.last() as u32 <= 126,
    ensures
        answer(encode_utf8(head + seq!['\n'])) == head,
{
    let none: Seq<char> = seq![];
    let line = head + seq!['\n'];
    encode_utf8_valid_utf8(line);
    encode_utf8_decode_utf8(line);
    law_trim(none, head, seq!['\n']);
    assert(none + head + seq!['\n'] =~= line);
}

/// The fingerprint is the 64-bit FNV-1a hash: it starts from the offset basis,
/// and every byte is mixed in and the result multiplied by the prime.
pub proof fn law_fnv1a(bytes: Seq<u8>, byte: u8)
    ensures
        fnv(seq![]) == 14_695_981_039_346_656_037,
        fnv(bytes.push(byte)) == ((fnv(bytes) ^ (byte as u64)) * 1_099_511_628_211)
            % 0x1_0000_0000_0000_0000,
{
    assert(bytes.push(byte).drop_last() =~= bytes);
}

/// Whether the stamp records a root in the state that it is in.
pub open spec fn is_recorded(stamped: Seq<State>, root: (String, Option<RootState>)) -> bool {
    root.1 matches Some(now) && exists|k: int|
        0 <= k < stamped.len() && (#[trigger] stamped[k]).root == root.0@ && stamped[k].head
            == now.head@ && stamped[k].dirty == now.dirty
}

/// An index is current if and only if there is a stamp, it names as many roots
/// as are given, it records every given root in the state that it is in, and
/// every root that it names is given; the order makes no difference.
pub proof fn law_current_exactly(stamped: Seq<State>, roots: Seq<(String, Option<RootState>)>)
    requires
        forall|a: int, b: int|
            0 <= a < b < stamped.len() ==> (#[trigger] stamped[a]).root != (
            #[trigger] stamped[b]).root,
    ensures
        up_to_date(stamped, roots) <==> {
            &&& stamped.len() > 0
            &&& stamped.len() == roots.len()
            &&& forall|i: int| 0 <= i < roots.len() ==> is_recorded(stamped, #[trigger] roots[i])
            &&& forall|k: int|
                0 <= k < stamped.len() ==> roots.map_values(
                    |r: (String, Option<RootState>)| r.0@,
                ).contains((#[trigger] stamped[k]).root)
        },
{
    let given = roots.map_values(|r: (String, Option<RootState>)| r.0@);
    assert forall|i: int| 0 <= i < roots.len() implies (is_recorded(stamped, #[trigger] roots[i])
        <==> unchanged(stamped, roots[i].0@, known_state(roots[i].1))) by {
        let root = roots[i].0@;
        lemma_state_recorded(stamped, root);
        if is_recorded(stamped, roots[i]) {
            let now = roots[i].1.unwrap();
            let k = choose|k: int|
                0 <= k < stamped.len() && (#[trigger] stamped[k]).root == root && stamped[k].head
                    == now.head@ && stamped[k].dirty == now.dirty;
            lemma_state_found(stamped, k);
        }
        if unchanged(stamped, root, known_state(roots[i].1)) {
            let st = state_of(stamped, root).unwrap();
            let k = choose|k: int| 0 <= k < stamped.len() && stamped[k] == st;
            assert(stamped[k].root == root);
        }
    }
    assert forall|k: int| 0 <= k < stamped.len() implies (given.contains(
        (#[trigger] stamped[k]).root,
    ) <==> is_given(roots, stamped[k].root)) by {
        if given.contains(stamped[k].root) {
            let i = choose|i: int| 0 <= i < given.len() && given[i] == stamped[k].root;
            assert(roots[i].0@ == stamped[k].root);
        }
        if is_given(roots, stamped[k].root) {
            let i = choose|i: int|
                0 <= i < roots.len() && (#[trigger] roots[i]).0@ == stamped[k].root;
            assert(given[i] == stamped[k].root);
        }
    }
}

} // verus!
