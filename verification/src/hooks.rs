//! Keeping a local index fresh and out of git's sight.

use vstd::prelude::*;
use vstd::string::StringExecFns;

use crate::paths::INDEX_FILE_NAME;
use crate::text::{
    char_lists, find_char, is_space, law_lines, law_occurs, lemma_find_char, lemma_find_char_bound,
    lines, lines_of,
    occurs, occurs_in, stands_at, to_chars, trim, trim_chars,
};

verus! {

/// What marks a hook as one of ours.
pub const HOOK_MARKER: &'static str = "csearch-rs";

/// What an installed hook says.
pub const HOOK_TEXT: &'static str =
    "#!/bin/sh\n# csearch-rs: refresh the local index\ncindex --local --if-changed --background\n";

/// The git events after which the index is refreshed.
pub fn hook_names() -> (r: Vec<&'static str>)
    ensures
        r@.len() == 4,
        r@[0]@ == "post-checkout"@,
        r@[1]@ == "post-merge"@,
        r@[2]@ == "post-commit"@,
        r@[3]@ == "post-rewrite"@,
{
    let mut r: Vec<&'static str> = Vec::new();
    r.push("post-checkout");
    r.push("post-merge");
    r.push("post-commit");
    r.push("post-rewrite");
    r
}

/// Whether a hook is one of ours.
pub open spec fn is_ours(hook: Seq<char>) -> bool {
    occurs(hook, HOOK_MARKER@)
}

/// Whether a hook of this text, where there is one, may be written over. A
/// hook that someone else wrote is left alone.
pub fn may_install(existing: Option<&str>) -> (r: bool)
    ensures
        r == match existing {
            Some(text) => is_ours(text@),
            None => true,
        },
{
    match existing {
        Some(text) => occurs_in(&to_chars(text), &to_chars(HOOK_MARKER)),
        None => true,
    }
}

/// Whether a hook of this text, where there is one, is to be removed: only if
/// it is one of ours.
pub fn may_uninstall(existing: Option<&str>) -> (r: bool)
    ensures
        r == match existing {
            Some(text) => is_ours(text@),
            None => false,
        },
{
    match existing {
        Some(text) => occurs_in(&to_chars(text), &to_chars(HOOK_MARKER)),
        None => false,
    }
}

/// A hook that was installed is recognised as ours, so that it can be written
/// anew and removed.
pub proof fn law_installed_hook_is_ours()
    ensures
        is_ours(HOOK_TEXT@),
{
    reveal_strlit("csearch-rs");
    reveal_strlit(
        "#!/bin/sh\n# csearch-rs: refresh the local index\ncindex --local --if-changed --background\n",
    );
    assert(HOOK_TEXT@.subrange(12, 22) =~= HOOK_MARKER@);
    assert(stands_at(HOOK_TEXT@, HOOK_MARKER@, 12));
}

/// Whether a list of excluded files names the index.
pub open spec fn excludes_index(text: Seq<char>) -> bool {
    exists|i: int| 0 <= i < lines(text).len() && trim(#[trigger] lines(text)[i]) == INDEX_FILE_NAME@
}

/// What has to follow a list of excluded files for it to name the index.
pub open spec fn index_line(text: Seq<char>) -> Seq<char> {
    (if text.len() > 0 && text.last() != '\n' {
        seq!['\n']
    } else {
        seq![]
    }) + INDEX_FILE_NAME@ + seq!['\n']
}

/// What to append to git's `info/exclude`, which says `existing`, so that
/// `git status` never shows the index and nothing commits it; `None` if
/// nothing needs doing.
pub fn exclude_index(existing: &str) -> (r: Option<String>)
    ensures
        match r {
            Some(line) => !excludes_index(existing@) && line@ == index_line(existing@),
            None => excludes_index(existing@),
        },
{
    let chars = to_chars(existing);
    let ls = lines_of(&chars);
    let name = to_chars(INDEX_FILE_NAME);
    let ghost all = lines(existing@);
    let mut i: usize = 0;
    while i < ls.len()
        invariant
            i <= ls@.len(),
            char_lists(ls@) == all,
            name@ == INDEX_FILE_NAME@,
            all == lines(existing@),
            forall|k: int| 0 <= k < i ==> trim(#[trigger] all[k]) != INDEX_FILE_NAME@,
        decreases ls@.len() - i,
    {
        assert(char_lists(ls@)[i as int] == ls@[i as int]@);
        let line = trim_chars(&ls[i]);
        if line.len() == name.len() && crate::text::is_at(&line, &name, 0) {
            assert(line@.subrange(0, name@.len() as int) =~= line@);
            assert(trim(all[i as int]) == INDEX_FILE_NAME@);
            return None;
        }
        proof {
            if line@ == name@ {
                assert(line@.subrange(0, name@.len() as int) =~= line@);
            }
        }
        i = i + 1;
    }
    let n: usize = chars.len();
    let mut line = String::new();
    proof {
        reveal_strlit("\n");
        assert("\n"@ =~= seq!['\n']);
    }
    if n > 0 && chars[n - 1] != '\n' {
        line.append("\n");
    }
    line.append(INDEX_FILE_NAME);
    line.append("\n");
    assert(line@ =~= index_line(existing@));
    Some(line)
}

/// Lines before a complete line, and lines after it.
proof fn lemma_lines_concat(a: Seq<char>, b: Seq<char>)
    requires
        a.len() == 0 || a.last() == '\n',
    ensures
        lines(a + b) == lines(a) + lines(b),
    decreases a.len(),
{
    if a.len() == 0 {
        assert(a + b =~= b);
        assert(lines(a) =~= seq![]);
        assert(lines(a) + lines(b) =~= lines(b));
    } else {
        let n = find_char(a, '\n');
        lemma_find_char_bound(a, '\n');
        if n == a.len() {
            assert(a[a.len() - 1] != '\n');
        }
        let s = a + b;
        assert forall|j: int| 0 <= j < n implies s[j] != '\n' by {
            assert(s[j] == a[j]);
        }
        assert(s[n as int] == a[n as int]);
        lemma_find_char(s, '\n', n);
        let rest = a.skip(n as int + 1);
        assert(s.skip(n as int + 1) =~= rest + b);
        assert(s.take(n as int) =~= a.take(n as int));
        if rest.len() > 0 {
            assert(rest.last() == a.last());
        }
        lemma_lines_concat(rest, b);
        assert(lines(s) =~= lines(a) + lines(b));
    }
}

/// Once the index is excluded, nothing more needs doing.
pub proof fn law_exclude_once(text: Seq<char>)
    ensures
        excludes_index(text + index_line(text)),
{
    reveal_strlit(".csearchindex");
    let name = INDEX_FILE_NAME@;
    let base = if text.len() > 0 && text.last() != '\n' {
        text.push('\n')
    } else {
        text
    };
    let line = name + seq!['\n'];
    assert(text + index_line(text) =~= base + line);
    lemma_lines_concat(base, line);
    lemma_find_char(line, '\n', name.len());
    assert(line.take(name.len() as int) =~= name);
    assert(line.skip(name.len() as int + 1) =~= seq![]);
    assert(lines(line.skip(name.len() as int + 1)) =~= seq![]);
    assert(lines(line) =~= seq![name]);
    assert(!is_space(name[0]));
    assert(!is_space(name.last()));
    assert(trim(name) == name);
    let k = lines(base).len() as int;
    assert(lines(text + index_line(text))[k] == name);
}

/// A hook is ours if and only if it says `csearch-rs` somewhere.
pub proof fn law_ours(hook: Seq<char>)
    ensures
        is_ours(hook) <==> exists|a: Seq<char>, b: Seq<char>|
            hook == #[trigger] (a + "csearch-rs"@ + b),
{
    law_occurs(hook, "csearch-rs"@);
}

/// The index is excluded if and only if a line of the list is its name, with
/// nothing but white space around it; a list to which its line has been added
/// still has all the lines that it had.
pub proof fn law_exclude_adds_a_line(text: Seq<char>)
    requires
        text.len() > 0 ==> text.last() == '\n',
    ensures
        lines(text + index_line(text)) == lines(text).push(".csearchindex"@),
        excludes_index(text) <==> exists|i: int|
            0 <= i < lines(text).len() && trim(#[trigger] lines(text)[i]) == ".csearchindex"@,
{
    reveal_strlit(".csearchindex");
    let name = INDEX_FILE_NAME@;
    let line = name + seq!['\n'];
    let none: Seq<char> = seq![];
    assert(index_line(text) =~= line);
    lemma_lines_concat(text, line);
    assert(!name.contains('\n')) by {
        assert forall|j: int| 0 <= j < name.len() implies name[j] != '\n' by {}
    }
    law_lines(name, none);
    assert(name + seq!['\n'] + none =~= line);
    assert(lines(none) =~= seq![]);
    assert(lines(line) =~= seq![name]);
    assert(lines(text) + seq![name] =~= lines(text).push(name));
}

/// An installed hook is a shell script that refreshes the local index, and only
/// if something has changed.
pub proof fn law_hook_refreshes()
    ensures
        stands_at(HOOK_TEXT@, "#!/bin/sh\n"@, 0),
        occurs(HOOK_TEXT@, "cindex --local --if-changed --background\n"@),
{
    reveal_strlit("#!/bin/sh\n");
    reveal_strlit("cindex --local --if-changed --background\n");
    reveal_strlit(
        "#!/bin/sh\n# csearch-rs: refresh the local index\ncindex --local --if-changed --background\n",
    );
    assert(HOOK_TEXT@.subrange(0, 10) =~= "#!/bin/sh\n"@);
    let p = "cindex --local --if-changed --background\n"@;
    let at = HOOK_TEXT@.len() - p.len();
    assert(HOOK_TEXT@.subrange(at, HOOK_TEXT@.len() as int) =~= p);
    assert(stands_at(HOOK_TEXT@, p, at));
}

} // verus!
