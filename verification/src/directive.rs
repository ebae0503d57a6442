//! The directive that declares a base image, and optionally names the build
//! stage that starts with it.

use crate::pattern::captures;
use crate::pattern::regex_captures;
use crate::text::lines;
use crate::text::lines_of;
use crate::text::trim;
use crate::text::trimmed;
use vstd::prelude::*;

verus! {

/// The expression that a base-image directive matches: the keyword in any
/// case, one whitespace character, then optionally the image token, the
/// keyword `AS` between two whitespace characters, and the name of the stage.
/// Image token and stage name each run up to the next whitespace.
pub const DIRECTIVE_PATTERN: &'static str =
    r"(?i)^FROM\s(?P<image>[^\s]+)?(?:\sAS\s)?(?P<stage>[^\s]+)?";

/// The number of the group that holds the image token.
pub const IMAGE_GROUP: usize = 1;

/// The number of the group that holds the stage's name.
pub const STAGE_GROUP: usize = 2;

/// A base-image directive: the image it builds on and the name it gives to
/// the stage, each as far as the line has one.
pub struct Directive {
    pub image: Option<String>,
    pub stage: Option<String>,
}

/// A directive as plain values.
pub struct DirectiveView {
    pub image: Option<Seq<char>>,
    pub stage: Option<Seq<char>>,
}

impl View for Directive {
    type V = DirectiveView;

    open spec fn view(&self) -> DirectiveView {
        DirectiveView { image: self.image.deep_view(), stage: self.stage.deep_view() }
    }
}

/// The text of group `at`, where the match has such a group and it took part.
pub open spec fn group_text(groups: Seq<Option<Seq<char>>>, at: int) -> Option<Seq<char>> {
    if 0 <= at < groups.len() {
        groups[at]
    } else {
        None
    }
}

/// The directive that the groups of a match stand for.
pub open spec fn directive_of_groups(groups: Seq<Option<Seq<char>>>) -> DirectiveView {
    DirectiveView {
        image: group_text(groups, IMAGE_GROUP as int),
        stage: group_text(groups, STAGE_GROUP as int),
    }
}

/// The directive on `line`, if the line is one.
pub open spec fn directive_on(line: Seq<char>) -> Option<DirectiveView> {
    match regex_captures(DIRECTIVE_PATTERN@, line) {
        Some(Some(groups)) => Some(directive_of_groups(groups)),
        _ => None,
    }
}

/// The directives among `lines`, in the order of the lines. Whitespace around
/// a line does not count, and a line that is no directive gives none.
pub open spec fn directives_in(lines: Seq<Seq<char>>) -> Seq<DirectiveView> {
    lines.filter_map(|line: Seq<char>| directive_on(trimmed(line)))
}

/// The directives of a recipe, in the order of its lines.
pub open spec fn directives_of(content: Seq<char>) -> Seq<DirectiveView> {
    directives_in(lines_of(content))
}

/// The names that `directives` give to stages, in their order.
pub open spec fn declared_stages(directives: Seq<DirectiveView>) -> Seq<Seq<char>> {
    directives.filter_map(|directive: DirectiveView| directive.stage)
}

/// One more line adds its directive, if it is one, to those before it.
pub proof fn lemma_directives_in_next(lines: Seq<Seq<char>>, at: int)
    requires
        0 <= at < lines.len(),
    ensures
        directives_in(lines.take(at + 1)) == match directive_on(trimmed(lines[at])) {
            Some(directive) => directives_in(lines.take(at)).push(directive),
            None => directives_in(lines.take(at)),
        },
{
    let read = |line: Seq<char>| directive_on(trimmed(line));
    lines.lemma_filter_map_take_succ(read, at);
    match directive_on(trimmed(lines[at])) {
        Some(directive) => {
            assert(directives_in(lines.take(at)) + seq![directive] == directives_in(
                lines.take(at),
            ).push(directive));
        },
        None => {
            assert(directives_in(lines.take(at)) + Seq::<DirectiveView>::empty()
                == directives_in(lines.take(at)));
        },
    }
}

/// One more directive adds the name of its stage, if it gives one, to those
/// before it.
pub proof fn lemma_declared_stages_next(directives: Seq<DirectiveView>, at: int)
    requires
        0 <= at < directives.len(),
    ensures
        declared_stages(directives.take(at + 1)) == match directives[at].stage {
            Some(name) => declared_stages(directives.take(at)).push(name),
            None => declared_stages(directives.take(at)),
        },
{
    let stage = |directive: DirectiveView| directive.stage;
    directives.lemma_filter_map_take_succ(stage, at);
    match directives[at].stage {
        Some(name) => {
            assert(declared_stages(directives.take(at)) + seq![name] == declared_stages(
                directives.take(at),
            ).push(name));
        },
        None => {
            assert(declared_stages(directives.take(at)) + Seq::<Seq<char>>::empty()
                == declared_stages(directives.take(at)));
        },
    }
}

/// A name that one of `directives` gives to a stage is among the declared
/// stages.
pub proof fn lemma_stage_is_declared(directives: Seq<DirectiveView>, at: int)
    requires
        0 <= at < directives.len(),
        directives[at].stage is Some,
    ensures
        declared_stages(directives).contains(directives[at].stage->0),
    decreases directives.len(),
{
    let name = directives[at].stage->0;
    let before = directives.drop_last();
    assert(before == directives.take(directives.len() - 1));
    assert(directives.take(directives.len() as int) == directives);
    lemma_declared_stages_next(directives, directives.len() - 1);
    if at == directives.len() - 1 {
        let stages = declared_stages(before).push(name);
        assert(stages[stages.len() - 1] == name);
    } else {
        lemma_stage_is_declared(before, at);
        let found = choose|k: int|
            0 <= k < declared_stages(before).len() && declared_stages(before)[k] == name;
        assert(declared_stages(directives)[found] == name);
    }
}

impl Directive {
    /// Reads the image token and the stage's name off the groups of a match.
    pub fn from_groups(groups: Vec<Option<String>>) -> (directive: Directive)
        ensures
            directive@ == directive_of_groups(groups.deep_view()),
    {
        let mut groups = groups;
        let mut image: Option<String> = None;
        let mut stage: Option<String> = None;
        if groups.len() > STAGE_GROUP {
            stage = groups.remove(STAGE_GROUP);
        }
        if groups.len() > IMAGE_GROUP {
            image = groups.remove(IMAGE_GROUP);
        }
        Directive { image, stage }
    }

    /// Reads `line` as a directive. A line that the directive's expression does
    /// not match is none.
    pub fn parse(line: &str) -> (found: Option<Directive>)
        ensures
            found.deep_view() == directive_on(line@),
    {
        match captures(DIRECTIVE_PATTERN, line) {
            Some(Some(groups)) => Some(Directive::from_groups(groups)),
            _ => None,
        }
    }
}

/// Reads the directives of a recipe, line by line.
pub fn read_directives(content: &str) -> (directives: Vec<Directive>)
    ensures
        directives.deep_view() == directives_of(content@),
{
    let lines: Vec<String> = lines(content);
    let mut directives: Vec<Directive> = Vec::new();
    let mut at: usize = 0;
    proof {
        assert(directives.deep_view() =~= Seq::<DirectiveView>::empty());
        assert(lines.deep_view().take(0).len() == 0);
    }
    while at < lines.len()
        invariant
            at <= lines.len(),
            lines.deep_view() == lines_of(content@),
            directives.deep_view() == directives_in(lines.deep_view().take(at as int)),
        decreases lines.len() - at,
    {
        let ghost before = directives.deep_view();
        let line: String = trim(lines[at].as_str());
        proof {
            lemma_directives_in_next(lines.deep_view(), at as int);
        }
        match Directive::parse(line.as_str()) {
            Some(directive) => {
                directives.push(directive);
                assert(directives.deep_view() =~= before.push(directive@));
            },
            None => {},
        }
        at = at + 1;
    }
    proof {
        assert(lines.deep_view().take(lines.len() as int) == lines.deep_view());
    }
    directives
}

/// Collects the names that `directives` give to stages.
pub fn stage_names(directives: &Vec<Directive>) -> (stages: Vec<String>)
    ensures
        stages.deep_view() == declared_stages(directives.deep_view()),
{
    let mut stages: Vec<String> = Vec::new();
    let mut at: usize = 0;
    proof {
        assert(stages.deep_view() =~= Seq::<Seq<char>>::empty());
        assert(directives.deep_view().take(0).len() == 0);
    }
    while at < directives.len()
        invariant
            at <= directives.len(),
            stages.deep_view() == declared_stages(directives.deep_view().take(at as int)),
        decreases directives.len() - at,
    {
        let ghost before = stages.deep_view();
        proof {
            lemma_declared_stages_next(directives.deep_view(), at as int);
        }
        match &directives[at].stage {
            Some(name) => {
                stages.push(name.clone());
                assert(stages.deep_view() =~= before.push(name@));
            },
            None => {},
        }
        at = at + 1;
    }
    proof {
        assert(directives.deep_view().take(directives.len() as int) == directives.deep_view());
    }
    stages
}

impl DeepView for Directive {
    type V = DirectiveView;

    open spec fn deep_view(&self) -> DirectiveView {
        self@
    }
}

} // verus!
