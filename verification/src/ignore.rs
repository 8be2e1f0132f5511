//! Which files `.gitignore` names.
use crate::bytes::{contains_run, copy_bytes, ends_with, starts_with};
use crate::text::{
    chars_contain, chars_end_with, chars_of, chars_start_with, lemma_views_push, lines, lines_of,
    same_chars, string_of, text_of, text_of_slice, trim, trimmed, views,
};
use crate::unix_path::{
    component_is_name, components, components_of, file_name, relative_to, strip_root,
};
use vstd::prelude::*;
use vstd::slice::slice_subrange;

verus! {

/// The patterns of a `.gitignore` file, and the working directory they are for.
#[derive(Debug)]
pub struct IgnoreRules {
    patterns: Vec<String>,
    worktree: Vec<u8>,
}

/// The model of [`IgnoreRules`].
#[verifier::ext_equal]
pub struct RulesModel {
    pub patterns: Seq<Seq<char>>,
    pub worktree: Seq<u8>,
}

impl View for IgnoreRules {
    type V = RulesModel;

    closed spec fn view(&self) -> RulesModel {
        RulesModel { patterns: views(self.patterns@), worktree: self.worktree@ }
    }
}

/// Whether a trimmed line is a pattern: not empty, and no comment.
pub open spec fn is_pattern(line: Seq<char>) -> bool {
    line.len() > 0 && line[0] != '#'
}

/// The patterns among some lines, without the white space around them.
pub open spec fn patterns_in(ls: Seq<Seq<char>>) -> Seq<Seq<char>>
    decreases ls.len(),
{
    if ls.len() == 0 {
        Seq::empty()
    } else {
        let before = patterns_in(ls.drop_last());
        let line = trim(ls.last());
        if is_pattern(line) {
            before.push(line)
        } else {
            before
        }
    }
}

/// Whether a pattern names a file with the path `rel` below the working directory and the name
/// `name`.
pub open spec fn names_file(pattern: Seq<char>, rel: Seq<char>, name: Seq<char>) -> bool {
    ||| rel == pattern
    ||| name == pattern
    ||| pattern.len() > 1 && pattern[0] == '*' && ends_with(
        name,
        pattern.subrange(1, pattern.len() as int),
    )
    ||| pattern.len() > 1 && pattern.last() == '*' && starts_with(name, pattern.drop_last())
    ||| pattern.len() > 0 && pattern.last() == '/' && (rel == pattern.drop_last() || starts_with(
        rel,
        pattern,
    ))
    ||| contains_run(rel, pattern)
}

/// The text of a path; empty where it is not UTF-8.
pub open spec fn text_or_empty(b: Option<Seq<u8>>) -> Seq<char> {
    match b {
        Some(b) => match text_of(b) {
            Some(s) => s,
            None => Seq::empty(),
        },
        None => Seq::empty(),
    }
}

/// Whether the rules name a file.
pub open spec fn ignored(rules: RulesModel, file_path: Seq<u8>) -> bool {
    match relative_to(rules.worktree, file_path) {
        None => false,
        Some(rel) => exists|i: int|
            0 <= i < rules.patterns.len() && names_file(
                #[trigger] rules.patterns[i],
                text_or_empty(Some(rel)),
                text_or_empty(file_name(file_path)),
            ),
    }
}

fn pattern_names(p: &[char], rel: &[char], name: &[char]) -> (r: bool)
    ensures
        r == names_file(p@, rel@, name@),
{
    if same_chars(rel, p) || same_chars(name, p) {
        return true;
    }
    let n: usize = p.len();
    if n > 1 && p[0] == '*' {
        let suffix = string_of(slice_subrange(p, 1, n));
        if chars_end_with(name, suffix.as_str()) {
            return true;
        }
    }
    if n > 0 {
        let front = slice_subrange(p, 0, n - 1);
        assert(front@ =~= p@.drop_last());
        if n > 1 && p[n - 1] == '*' && chars_start_with(name, string_of(front).as_str()) {
            return true;
        }
        if p[n - 1] == '/' && (same_chars(rel, front) || chars_start_with(
            rel,
            string_of(p).as_str(),
        )) {
            return true;
        }
    }
    chars_contain(rel, p)
}

fn text_of_path(b: &[u8]) -> (r: Vec<char>)
    ensures
        r@ == text_or_empty(Some(b@)),
{
    match text_of_slice(b) {
        Some(s) => chars_of(s.as_str()),
        None => {
            let none: Vec<char> = Vec::new();
            assert(none@ =~= Seq::empty());
            none
        },
    }
}

fn name_text(path: &[u8]) -> (r: Vec<char>)
    ensures
        r@ == text_or_empty(file_name(path@)),
{
    let c = components_of(path);
    let none: Vec<char> = Vec::new();
    assert(none@ =~= Seq::empty());
    if c.len() == 0 {
        return none;
    }
    let last = c[c.len() - 1].as_slice();
    assert(components(path@).last() == last@);
    if component_is_name(last) {
        text_of_path(last)
    } else {
        none
    }
}

impl IgnoreRules {
    /// The rules of a working directory whose `.gitignore` file, if it has one, has this content.
    pub fn load(worktree: &[u8], content: Option<&str>) -> (r: IgnoreRules)
        ensures
            r@ == (RulesModel {
                patterns: (match content {
                    Some(s) => patterns_in(lines(s@)),
                    None => Seq::empty(),
                }),
                worktree: worktree@,
            }),
    {
        let mut patterns: Vec<String> = Vec::new();
        assert(views(patterns@) =~= Seq::empty());
        if let Some(s) = content {
            let cs = chars_of(s);
            let ls = lines_of(cs.as_slice());
            let ghost all = lines(s@);
            let mut i: usize = 0;
            assert(all.subrange(0, 0) =~= Seq::empty());
            while i < ls.len()
                invariant
                    0 <= i <= ls@.len(),
                    views(ls@) == all,
                    views(patterns@) == patterns_in(all.subrange(0, i as int)),
                decreases ls@.len() - i,
            {
                proof {
                    let upto = all.subrange(0, i + 1);
                    assert(upto.drop_last() =~= all.subrange(0, i as int));
                    assert(upto.last() == ls@[i as int]@);
                }
                let line = trimmed(ls[i].as_slice());
                if line.len() > 0 && line[0] != '#' {
                    let p = string_of(line);
                    proof {
                        lemma_views_push(patterns@, p);
                    }
                    patterns.push(p);
                }
                i += 1;
            }
            assert(all.subrange(0, i as int) =~= all);
        }
        IgnoreRules { patterns, worktree: copy_bytes(worktree) }
    }

    /// The working directory that the rules are for.
    pub fn worktree(&self) -> (r: &[u8])
        ensures
            r@ == self@.worktree,
    {
        self.worktree.as_slice()
    }

    /// Whether the rules name a file.
    pub fn is_ignored(&self, file_path: &[u8]) -> (r: bool)
        ensures
            r == ignored(self@, file_path@),
    {
        let rel = match strip_root(self.worktree.as_slice(), file_path) {
            Some(rel) => text_of_path(rel),
            None => return false,
        };
        let name = name_text(file_path);
        let ghost patterns = self@.patterns;
        let mut i: usize = 0;
        while i < self.patterns.len()
            invariant
                0 <= i <= self.patterns@.len(),
                patterns == views(self.patterns@),
                patterns == self@.patterns,
                relative_to(self@.worktree, file_path@) is Some,
                rel@ == text_or_empty(relative_to(self@.worktree, file_path@)),
                name@ == text_or_empty(file_name(file_path@)),
                forall|k: int|
                    0 <= k < i ==> !names_file(#[trigger] patterns[k], rel@, name@),
            decreases self.patterns@.len() - i,
        {
            let p = chars_of(self.patterns[i].as_str());
            assert(patterns[i as int] == p@);
            if pattern_names(p.as_slice(), rel.as_slice(), name.as_slice()) {
                return true;
            }
            i += 1;
        }
        false
    }
}

/// A pattern that is a file's path or name makes it ignored, and without patterns nothing is.
pub proof fn law_named_is_ignored(rules: RulesModel, file_path: Seq<u8>)
    ensures
        rules.patterns.len() == 0 ==> !ignored(rules, file_path),
        relative_to(rules.worktree, file_path) matches Some(rel) ==> rules.patterns.contains(
            text_or_empty(Some(rel)),
        ) || rules.patterns.contains(text_or_empty(file_name(file_path))) ==> ignored(
            rules,
            file_path,
        ),
{
    if let Some(rel) = relative_to(rules.worktree, file_path) {
        let a = text_or_empty(Some(rel));
        let b = text_or_empty(file_name(file_path));
        if rules.patterns.contains(a) {
            let i = choose|i: int| 0 <= i < rules.patterns.len() && rules.patterns[i] == a;
            assert(names_file(rules.patterns[i], a, b));
        } else if rules.patterns.contains(b) {
            let i = choose|i: int| 0 <= i < rules.patterns.len() && rules.patterns[i] == b;
            assert(names_file(rules.patterns[i], a, b));
        }
    }
}

} // verus!
