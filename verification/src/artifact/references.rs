//! The files that a skill refers to.

use crate::text::{
    chars_of, find_from, find_of, first_is, has_char, holds, index_of, is_space, lemma_find,
    lemma_index_unique, lemma_words_one, lines, occurs_at, part, position, same_str, solid, split,
    split_on, starts_with, string_of, text_lines, trim, trim_of, views, words, words_of,
};
use vstd::prelude::*;

verus! {

/// A relative link found in the document, with the line it sits on.
#[derive(Debug)]
pub struct Reference {
    pub target: String,
    pub line: usize,
}

/// A target and its line.
pub type ReferenceModel = (Seq<char>, int);

impl View for Reference {
    type V = ReferenceModel;

    open spec fn view(&self) -> ReferenceModel {
        (self.target@, self.line as int)
    }
}

pub open spec fn reference_models(r: Seq<Reference>) -> Seq<ReferenceModel> {
    Seq::new(r.len(), |i: int| r[i]@)
}

/// `s` without every `./` at its front.
pub open spec fn skip_dots(s: Seq<char>) -> Seq<char>
    decreases s.len(),
{
    if s.len() >= 2 && s[0] == '.' && s[1] == '/' {
        skip_dots(s.skip(2))
    } else {
        s
    }
}

/// Drops every `./` at the front.
pub fn without_dots(s: &[char]) -> (out: &[char])
    ensures
        out@ == skip_dots(s@),
{
    let mut rest: &[char] = s;
    while rest.len() >= 2 && rest[0] == '.' && rest[1] == '/'
        invariant
            skip_dots(rest@) == skip_dots(s@),
        decreases rest.len(),
    {
        assert(rest@.subrange(2, rest@.len() as int) =~= rest@.skip(2));
        rest = part(rest, 2, rest.len());
    }
    rest
}

/// A path with forward slashes and without `./` at its front.
pub open spec fn normal_of(p: Seq<char>) -> Seq<char> {
    skip_dots(
        Seq::new(
            p.len(),
            |i: int|
                if p[i] == '\\' {
                    '/'
                } else {
                    p[i]
                },
        ),
    )
}

/// Normalises a relative path.
pub fn normalise_rel(p: &str) -> (out: String)
    ensures
        out@ == normal_of(p@),
{
    let chars = chars_of(p);
    let ghost goal = Seq::new(
        p@.len(),
        |i: int|
            if p@[i] == '\\' {
                '/'
            } else {
                p@[i]
            },
    );
    let mut slashed: Vec<char> = Vec::new();
    let mut i: usize = 0;
    while i < chars.len()
        invariant
            chars@ == p@,
            goal == Seq::new(
                p@.len(),
                |i: int|
                    if p@[i] == '\\' {
                        '/'
                    } else {
                        p@[i]
                    },
            ),
            i <= chars.len(),
            slashed@ == goal.take(i as int),
        decreases chars.len() - i,
    {
        slashed.push(
            if chars[i] == '\\' {
                '/'
            } else {
                chars[i]
            },
        );
        assert(goal.take(i + 1) =~= goal.take(i as int).push(goal[i as int]));
        i += 1;
    }
    assert(goal.take(i as int) =~= goal);
    string_of(without_dots(&slashed))
}

/// The directories that make a skill tree a skill tree, in order.
pub open spec fn disclosure_dir(i: int) -> Seq<char> {
    if i == 0 {
        "commands"@
    } else if i == 1 {
        "templates"@
    } else if i == 2 {
        "references"@
    } else if i == 3 {
        "scripts"@
    } else {
        "assets"@
    }
}

/// The directories that make a skill tree a skill tree.
pub fn disclosure_dirs() -> (out: Vec<String>)
    ensures
        views(out@) == Seq::new(5, |i: int| disclosure_dir(i)),
{
    let mut out: Vec<String> = Vec::new();
    out.push("commands".to_owned());
    out.push("templates".to_owned());
    out.push("references".to_owned());
    out.push("scripts".to_owned());
    out.push("assets".to_owned());
    assert(views(out@) =~= Seq::new(5, |i: int| disclosure_dir(i)));
    out
}

/// Does a path lead into one of the directories?
pub open spec fn in_disclosure_dir(head: Seq<char>) -> bool {
    exists|i: int| 0 <= i < 5 && (#[trigger] disclosure_dir(i) + "/"@).is_prefix_of(head)
}

/// Does a text look like a path in a skill's tree?
pub open spec fn tree_path(candidate: Seq<char>) -> bool {
    let head = skip_dots(candidate);
    in_disclosure_dir(head) && holds(head, '.') && !holds(head, ' ')
}

/// The target that a text refers to, without its anchor. Absolute paths, other
/// places and anchors of the same document are no references: every scheme
/// holds a colon.
pub open spec fn target_of(text: Seq<char>) -> Option<Seq<char>> {
    let t = trim_of(text);
    let clean = t.take(index_of(t, '#'));
    if first_is(t, '/') || holds(t, ':') || clean.len() == 0 {
        None
    } else {
        Some(clean)
    }
}

/// The references with one more, unless it is there already.
pub open spec fn reference_added(
    refs: Seq<ReferenceModel>,
    text: Seq<char>,
    line: int,
) -> Seq<ReferenceModel> {
    match target_of(text) {
        Some(target) => if refers(refs, target, line) {
            refs
        } else {
            refs.push((target, line))
        },
        None => refs,
    }
}

/// Is a target referred to on a line?
pub open spec fn refers(refs: Seq<ReferenceModel>, target: Seq<char>, line: int) -> bool {
    exists|i: int| 0 <= i < refs.len() && #[trigger] refs[i] == (target, line)
}

/// The references with several more.
pub open spec fn references_added(
    refs: Seq<ReferenceModel>,
    texts: Seq<Seq<char>>,
    line: int,
) -> Seq<ReferenceModel>
    decreases texts.len(),
{
    if texts.len() == 0 {
        refs
    } else {
        reference_added(references_added(refs, texts.drop_last(), line), texts.last(), line)
    }
}

/// The first word, or everything where there is none.
pub open spec fn first_word(t: Seq<char>) -> Seq<char> {
    if words_of(t).len() > 0 {
        words_of(t)[0]
    } else {
        t
    }
}

/// The targets of the links `[text](target)` in a line, from position `j` on.
pub open spec fn links_from(line: Seq<char>, j: int) -> Seq<Seq<char>>
    decreases line.len() - j,
    via links_from_decreases
{
    if j < 0 || j >= line.len() {
        Seq::empty()
    } else if line[j] == ']' && j + 1 < line.len() && line[j + 1] == '(' {
        match find_of(line, ")"@, j + 2) {
            Some(close) => seq![first_word(trim_of(line.subrange(j + 2, close)))] + links_from(
                line,
                close + 1,
            ),
            None => links_from(line, j + 1),
        }
    } else {
        links_from(line, j + 1)
    }
}

#[via_fn]
proof fn links_from_decreases(line: Seq<char>, j: int) {
    if 0 <= j < line.len() {
        reveal_strlit(")");
        lemma_find(line, ")"@, j + 2);
    }
}

/// The paths in backticks among the pieces of a line: every second piece, from
/// number `i` on.
pub open spec fn ticked_from(pieces: Seq<Seq<char>>, i: int) -> Seq<Seq<char>>
    decreases pieces.len() + 1 - i,
{
    if i < 0 || i >= pieces.len() {
        Seq::empty()
    } else {
        let candidate = trim_of(pieces[i]);
        if holds(candidate, '/') && tree_path(candidate) {
            seq![candidate] + ticked_from(pieces, i + 2)
        } else {
            ticked_from(pieces, i + 2)
        }
    }
}

/// What a line refers to: its links, then the paths in backticks.
pub open spec fn line_targets(line: Seq<char>) -> Seq<Seq<char>> {
    links_from(line, 0) + ticked_from(split_on(line, '`'), 1)
}

/// The references of some lines.
pub open spec fn references_in(lines: Seq<Seq<char>>) -> Seq<ReferenceModel>
    decreases lines.len(),
{
    if lines.len() == 0 {
        Seq::empty()
    } else {
        references_added(
            references_in(lines.drop_last()),
            line_targets(lines.last()),
            lines.len() as int,
        )
    }
}

/// The references of a document.
pub open spec fn references_of(content: Seq<char>) -> Seq<ReferenceModel> {
    references_in(text_lines(content))
}

fn looks_like_a_tree_path(candidate: &[char]) -> (out: bool)
    ensures
        out == tree_path(candidate@),
{
    let head = without_dots(candidate);
    let dirs = disclosure_dirs();
    let mut inside = false;
    let mut i: usize = 0;
    assert(views(dirs@).len() == dirs@.len());
    while i < dirs.len()
        invariant
            dirs@.len() == 5,
            views(dirs@) == Seq::new(5, |i: int| disclosure_dir(i)),
            i <= dirs.len(),
            inside == (exists|k: int|
                0 <= k < i && (#[trigger] disclosure_dir(k) + "/"@).is_prefix_of(head@)),
        decreases dirs.len() - i,
    {
        assert(views(dirs@)[i as int] == disclosure_dir(i as int));
        let mut prefix = dirs[i].clone();
        prefix.append("/");
        if starts_with(head, prefix.as_str()) {
            assert((disclosure_dir(i as int) + "/"@).is_prefix_of(head@));
            inside = true;
        }
        i += 1;
    }
    assert(views(dirs@).len() == 5);
    inside && has_char(head, '.') && !has_char(head, ' ')
}

fn push_reference(out: &mut Vec<Reference>, text: &[char], line: usize)
    ensures
        reference_models(final(out)@) == reference_added(
            reference_models(old(out)@),
            text@,
            line as int,
        ),
{
    let t = trim(text);
    if t.len() > 0 && t[0] == '/' {
        return ;
    }
    if has_char(t, ':') {
        return ;
    }
    let anchor: usize = position(t, '#');
    let clean = string_of(part(t, 0, anchor));
    assert(clean@ =~= t@.take(anchor as int));
    if anchor == 0 {
        return ;
    }
    let ghost before = reference_models(out@);
    let mut i: usize = 0;
    while i < out.len()
        invariant
            before == reference_models(out@),
            before == reference_models(old(out)@),
            target_of(text@) == Some(clean@),
            i <= out.len(),
            forall|k: int| 0 <= k < i ==> #[trigger] before[k] != (clean@, line as int),
        decreases out.len() - i,
    {
        if out[i].line == line && same_str(out[i].target.as_str(), clean.as_str()) {
            assert(before[i as int] == (clean@, line as int));
            return ;
        }
        assert(before[i as int] != (clean@, line as int));
        i += 1;
    }
    let ghost c = clean@;
    out.push(Reference { target: clean, line });
    assert(reference_models(out@) =~= before.push((c, line as int)));
}

fn line_links(line: &[char]) -> (out: Vec<String>)
    ensures
        views(out@) == links_from(line@, 0),
{
    let closing = chars_of(")");
    let mut out: Vec<String> = Vec::new();
    let mut j: usize = 0;
    proof {
        reveal_strlit(")");
    }
    assert(views(out@) + links_from(line@, 0) =~= links_from(line@, 0));
    while j < line.len()
        invariant
            closing@ == ")"@,
            ")"@.len() == 1,
            j <= line.len(),
            views(out@) + links_from(line@, j as int) == links_from(line@, 0),
        decreases line.len() - j,
    {
        let ghost before = views(out@);
        let mut next: usize = j + 1;
        if line[j] == ']' && j + 1 < line.len() && line[j + 1] == '(' {
            if let Some(close) = find_from(line, &closing, j + 2) {
                let inner = trim(part(line, j + 2, close));
                let all = words(inner);
                assert(views(all@).len() == all@.len());
                let target = if all.len() > 0 {
                    assert(views(all@)[0] == all@[0]@);
                    all[0].clone()
                } else {
                    string_of(inner)
                };
                let ghost t = target@;
                out.push(target);
                next = close + 1;
                assert(views(out@) =~= before.push(t));
                assert(before.push(t) + links_from(line@, next as int) =~= before + (seq![t]
                    + links_from(line@, next as int)));
            }
        }
        j = next;
    }
    assert(views(out@) + links_from(line@, j as int) =~= views(out@));
    out
}

fn line_ticks(line: &[char]) -> (out: Vec<String>)
    ensures
        views(out@) == ticked_from(split_on(line@, '`'), 1),
{
    let pieces = split(line, '`');
    let ghost ps = split_on(line@, '`');
    let mut out: Vec<String> = Vec::new();
    let mut i: usize = 1;
    assert(views(out@) + ticked_from(ps, 1) =~= ticked_from(ps, 1));
    while i < pieces.len()
        invariant
            views(pieces@) == ps,
            ps == split_on(line@, '`'),
            1 <= i <= pieces.len() + 1,
            views(out@) + ticked_from(ps, i as int) == ticked_from(ps, 1),
        decreases pieces.len() + 1 - i,
    {
        let ghost before = views(out@);
        let chars = chars_of(pieces[i].as_str());
        let candidate = trim(&chars);
        if has_char(candidate, '/') && looks_like_a_tree_path(candidate) {
            out.push(string_of(candidate));
            assert(views(out@) =~= before.push(candidate@));
            assert(before.push(candidate@) + ticked_from(ps, i + 2) =~= before + (seq![candidate@]
                + ticked_from(ps, i + 2)));
        }
        if i == pieces.len() - 1 {
            assert(ticked_from(ps, i + 2) =~= Seq::<Seq<char>>::empty());
            assert(views(out@) + ticked_from(ps, i + 2) =~= views(out@));
            return out;
        }
        i += 2;
    }
    assert(views(out@) + ticked_from(ps, i as int) =~= views(out@));
    out
}

/// Markdown links plus bare backticked paths: skills reference their files
/// both ways, and a broken reference is broken either way.
pub fn collect_references(content: &str) -> (out: Vec<Reference>)
    ensures
        reference_models(out@) == references_of(content@),
{
    let all = lines(&chars_of(content));
    let ghost ls = text_lines(content@);
    let mut out: Vec<Reference> = Vec::new();
    let mut i: usize = 0;
    assert(reference_models(out@) =~= references_in(ls.take(0)));
    while i < all.len()
        invariant
            views(all@) == ls,
            i <= all.len(),
            reference_models(out@) == references_in(ls.take(i as int)),
        decreases all.len() - i,
    {
        assert(ls.take(i + 1).drop_last() =~= ls.take(i as int));
        let line = chars_of(all[i].as_str());
        assert(line@ == ls[i as int]);
        let links = line_links(&line);
        let ticks = line_ticks(&line);
        let ghost targets = line_targets(line@);
        let ghost n = links@.len() as int;
        let ghost start = reference_models(out@);
        assert(targets.take(0).len() == 0);
        let mut k: usize = 0;
        while k < links.len()
            invariant
                targets == views(links@) + views(ticks@),
                k <= links.len(),
                i < all.len(),
                reference_models(out@) == references_added(
                    start,
                    targets.take(k as int),
                    (i + 1) as int,
                ),
            decreases links.len() - k,
        {
            assert(targets.take(k + 1).drop_last() =~= targets.take(k as int));
            assert(targets[k as int] == links@[k as int]@);
            push_reference(&mut out, &chars_of(links[k].as_str()), i + 1);
            k += 1;
        }
        k = 0;
        while k < ticks.len()
            invariant
                targets == views(links@) + views(ticks@),
                n == links@.len(),
                k <= ticks.len(),
                i < all.len(),
                reference_models(out@) == references_added(
                    start,
                    targets.take(n + k),
                    (i + 1) as int,
                ),
            decreases ticks.len() - k,
        {
            assert(targets.take(n + k + 1).drop_last() =~= targets.take(n + k));
            assert(targets[n + k] == ticks@[k as int]@);
            push_reference(&mut out, &chars_of(ticks[k].as_str()), i + 1);
            k += 1;
        }
        assert(targets.take(n + k) =~= targets);
        i += 1;
    }
    assert(ls.take(i as int) =~= ls);
    out
}

proof fn lemma_added(
    refs: Seq<ReferenceModel>,
    texts: Seq<Seq<char>>,
    line: int,
    target: Seq<char>,
    at: int,
)
    ensures
        refers(refs, target, at) ==> refers(references_added(refs, texts, line), target, at),
        forall|k: int|
            0 <= k < texts.len() && target_of(#[trigger] texts[k]) == Some(target) ==> refers(
                references_added(refs, texts, line),
                target,
                line,
            ),
    decreases texts.len(),
{
    if texts.len() > 0 {
        let d = texts.drop_last();
        lemma_added(refs, d, line, target, at);
        let before = references_added(refs, d, line);
        let out = references_added(refs, texts, line);
        assert forall|x: Seq<char>, l: int| #[trigger] refers(before, x, l) implies refers(
            out,
            x,
            l,
        ) by {
            let i = choose|i: int| 0 <= i < before.len() && #[trigger] before[i] == (x, l);
            assert(out[i] == (x, l));
        }
        assert forall|k: int|
            0 <= k < texts.len() && target_of(#[trigger] texts[k]) == Some(target) implies refers(
            out,
            target,
            line,
        ) by {
            if k < d.len() {
                assert(d[k] == texts[k]);
                assert(refers(before, target, line));
            } else if !refers(before, target, line) {
                assert(out[before.len() as int] == (target, line));
            }
        }
    }
}

proof fn lemma_reference_kept(lines: Seq<Seq<char>>, n: int, k: int, target: Seq<char>)
    requires
        1 <= n <= lines.len(),
        0 <= k < line_targets(lines[n - 1]).len(),
        target_of(line_targets(lines[n - 1])[k]) == Some(target),
    ensures
        refers(references_in(lines), target, n),
    decreases lines.len(),
{
    let d = lines.drop_last();
    let texts = line_targets(lines.last());
    lemma_added(references_in(d), texts, lines.len() as int, target, n);
    if n < lines.len() {
        assert(d[n - 1] == lines[n - 1]);
        lemma_reference_kept(d, n, k, target);
    }
}

proof fn lemma_links_skip(line: Seq<char>, from: int, to: int)
    requires
        0 <= from <= to <= line.len(),
        forall|k: int| from <= k < to ==> line[k] != ']',
    ensures
        links_from(line, from) == links_from(line, to),
    decreases to - from,
{
    if from < to {
        lemma_links_skip(line, from + 1, to);
    }
}

/// A link to a file of the skill is a reference, on its line: the target of the
/// first link of a line is among the references of the document, as it is
/// written.
pub proof fn law_links_are_references(
    lines: Seq<Seq<char>>,
    n: int,
    a: Seq<char>,
    target: Seq<char>,
    b: Seq<char>,
)
    requires
        1 <= n <= lines.len(),
        lines[n - 1] == a + "]("@ + target + ")"@ + b,
        !holds(a, ']'),
        solid(target),
        target.len() > 0,
        target[0] != '/',
        !holds(target, ')') && !holds(target, '#') && !holds(target, ':'),
    ensures
        refers(references_in(lines), target, n),
{
    reveal_strlit("](");
    reveal_strlit(")");
    let line = lines[n - 1];
    let at = a.len() as int;
    let close = at + 2 + target.len();
    assert(line[at] == ']' && line[at + 1] == '(');
    assert forall|k: int| 0 <= k < at implies line[k] != ']' by {
        assert(line[k] == a[k]);
    }
    lemma_links_skip(line, 0, at);
    assert(line.subrange(close, close + 1) =~= ")"@);
    assert(occurs_at(line, ")"@, close));
    assert forall|k: int| at + 2 <= k < close implies !#[trigger] occurs_at(line, ")"@, k) by {
        if occurs_at(line, ")"@, k) {
            assert(line.subrange(k, k + 1)[0] == ')');
            assert(target[k - at - 2] == ')');
        }
    }
    lemma_find(line, ")"@, at + 2);
    assert(find_of(line, ")"@, at + 2) == Some(close));
    assert(line.subrange(at + 2, close) =~= target);
    assert(!is_space(target[0]) && !is_space(target[target.len() - 1]));
    assert(trim_of(target) == target);
    lemma_words_one(target);
    assert(words_of(target)[0] == target);
    assert(links_from(line, 0)[0] == target);
    assert(line_targets(line)[0] == target);
    assert forall|k: int| 0 <= k < target.len() implies target[k] != '#' by {}
    lemma_index_unique(target, '#', target.len() as int);
    assert(target.take(target.len() as int) =~= target);
    assert(target_of(target) == Some(target));
    lemma_reference_kept(lines, n, 0, target);
}

} // verus!
