//! Recipes, the images they build on, and the images whose tag is not pinned.

use crate::directive::declared_stages;
use crate::directive::directive_on;
use crate::directive::directives_in;
use crate::directive::directives_of;
use crate::directive::lemma_declared_stages_next;
use crate::directive::lemma_stage_is_declared;
use crate::directive::read_directives;
use crate::directive::stage_names;
use crate::directive::Directive;
use crate::directive::DirectiveView;
use crate::tag::is_pinned;
use crate::tag::pinned;
use crate::text::chars_of;
use crate::text::lemma_first_occurrence;
use crate::text::lemma_no_occurrence;
use crate::text::lines_of;
use crate::text::string_of;
use crate::text::trimmed;
use std::path::PathBuf;
use vstd::prelude::*;
use vstd::std_specs::cmp::PartialEqSpecImpl;
use vstd::string::StringExecFns;

verus! {

/// `std::path::PathBuf`, carried through unopened.
#[verifier::external_type_specification]
#[verifier::external_body]
pub struct ExPathBuf(PathBuf);

/// A recipe: where it lies and what it says.
pub struct Dockerfile {
    pub path: PathBuf,
    pub content: String,
}

/// A reference to an image: its repository, and its tag if it has one.
#[derive(Debug, Eq, Hash)]
pub struct Image {
    pub repository: String,
    pub tag: Option<String>,
}

/// An image reference as plain values.
pub struct ImageView {
    pub repository: Seq<char>,
    pub tag: Option<Seq<char>>,
}

impl View for Image {
    type V = ImageView;

    open spec fn view(&self) -> ImageView {
        ImageView { repository: self.repository@, tag: self.tag.deep_view() }
    }
}

impl DeepView for Image {
    type V = ImageView;

    open spec fn deep_view(&self) -> ImageView {
        self@
    }
}

impl PartialEq for Image {
    /// Two references are the same when repository and tag are; no tag is
    /// different from every tag.
    fn eq(&self, other: &Image) -> (same: bool) {
        let same_tag: bool = match (&self.tag, &other.tag) {
            (Some(mine), Some(theirs)) => *mine == *theirs,
            (None, None) => true,
            _ => false,
        };
        self.repository == other.repository && same_tag
    }
}

impl PartialEqSpecImpl for Image {
    open spec fn obeys_eq_spec() -> bool {
        true
    }

    open spec fn eq_spec(&self, other: &Image) -> bool {
        self@ == other@
    }
}

/// The reference that an image token stands for: the text before the first
/// colon is the repository and the text after it the tag; a token without a
/// colon has no tag.
pub open spec fn parsed_image(token: Seq<char>) -> ImageView {
    match token.index_of_first(':') {
        Some(colon) => ImageView {
            repository: token.take(colon),
            tag: Some(token.skip(colon + 1)),
        },
        None => ImageView { repository: token, tag: None },
    }
}

/// The token that stands for a reference: the repository, then a colon and
/// the tag where there is one.
pub open spec fn name_of(image: ImageView) -> Seq<char> {
    match image.tag {
        Some(tag) => image.repository + seq![':'] + tag,
        None => image.repository,
    }
}

/// Whether a reference is not reproducible: it has no tag, or a tag that is
/// not pinned.
pub open spec fn floating(image: ImageView) -> bool {
    match image.tag {
        Some(tag) => !pinned(tag),
        None => true,
    }
}

/// The reference that a directive pulls from a registry: that of its image
/// token, unless the token is the name of a stage.
pub open spec fn reference_of(directive: DirectiveView, stages: Seq<Seq<char>>) -> Option<
    ImageView,
> {
    match directive.image {
        Some(token) => if stages.contains(token) {
            None
        } else {
            Some(parsed_image(token))
        },
        None => None,
    }
}

/// The references that `directives` pull from a registry, in their order,
/// given the names of the stages.
pub open spec fn references_among(
    directives: Seq<DirectiveView>,
    stages: Seq<Seq<char>>,
) -> Seq<ImageView> {
    directives.filter_map(|directive: DirectiveView| reference_of(directive, stages))
}

/// The references that `directives` pull from a registry. A stage named by
/// any of the directives, earlier or later, is no such reference.
pub open spec fn external_images(directives: Seq<DirectiveView>) -> Seq<ImageView> {
    references_among(directives, declared_stages(directives))
}

/// The images that a recipe builds on, one for each directive that pulls one,
/// in the order of the lines.
pub open spec fn images_of(content: Seq<char>) -> Seq<ImageView> {
    external_images(directives_of(content))
}

/// The floating references among `images`, in their order.
pub open spec fn floating_among(images: Seq<ImageView>) -> Seq<ImageView> {
    images.filter(|image: ImageView| floating(image))
}

/// `items` without repetitions: of equal items the first stays.
pub open spec fn distinct(items: Seq<ImageView>) -> Seq<ImageView>
    decreases items.len(),
{
    if items.len() == 0 {
        Seq::empty()
    } else {
        let before = distinct(items.drop_last());
        if before.contains(items.last()) {
            before
        } else {
            before.push(items.last())
        }
    }
}

/// The images of a recipe that are not reproducible, each once.
pub open spec fn invalid_images_of(content: Seq<char>) -> Seq<ImageView> {
    distinct(floating_among(images_of(content)))
}

/// One more directive adds its reference, if it pulls one, to those before it.
pub proof fn lemma_references_among_next(
    directives: Seq<DirectiveView>,
    stages: Seq<Seq<char>>,
    at: int,
)
    requires
        0 <= at < directives.len(),
    ensures
        references_among(directives.take(at + 1), stages) == match reference_of(
            directives[at],
            stages,
        ) {
            Some(image) => references_among(directives.take(at), stages).push(image),
            None => references_among(directives.take(at), stages),
        },
{
    let pull = |directive: DirectiveView| reference_of(directive, stages);
    let before = references_among(directives.take(at), stages);
    directives.lemma_filter_map_take_succ(pull, at);
    match reference_of(directives[at], stages) {
        Some(image) => {
            assert(before + seq![image] == before.push(image));
        },
        None => {
            assert(before + Seq::<ImageView>::empty() == before);
        },
    }
}

/// One more image is added to the floating ones before it if it is floating.
pub proof fn lemma_floating_among_next(images: Seq<ImageView>, at: int)
    requires
        0 <= at < images.len(),
    ensures
        floating_among(images.take(at + 1)) == if floating(images[at]) {
            floating_among(images.take(at)).push(images[at])
        } else {
            floating_among(images.take(at))
        },
{
    let is_floating = |image: ImageView| floating(image);
    images.take(at).lemma_filter_push(images[at], is_floating);
    assert(images.take(at).push(images[at]) == images.take(at + 1));
}

/// One more item is added to the distinct ones before it if it is new.
pub proof fn lemma_distinct_push(items: Seq<ImageView>, item: ImageView)
    ensures
        distinct(items.push(item)) == if distinct(items).contains(item) {
            distinct(items)
        } else {
            distinct(items).push(item)
        },
{
    assert(items.push(item).drop_last() == items);
}

/// `distinct` keeps every item, adds none and repeats none.
pub proof fn lemma_distinct(items: Seq<ImageView>)
    ensures
        distinct(items).no_duplicates(),
        forall|item: ImageView| #[trigger]
            distinct(items).contains(item) <==> items.contains(item),
    decreases items.len(),
{
    if items.len() > 0 {
        let rest = items.drop_last();
        let last = items.last();
        let before = distinct(rest);
        lemma_distinct(rest);
        assert forall|item: ImageView| #[trigger]
            distinct(items).contains(item) <==> items.contains(item) by {
            if items.contains(item) {
                let k = choose|k: int| 0 <= k < items.len() && items[k] == item;
                if k < items.len() - 1 {
                    assert(rest[k] == item);
                    assert(rest.contains(item));
                    assert(before.contains(item));
                    let j = choose|j: int| 0 <= j < before.len() && before[j] == item;
                    assert(distinct(items)[j] == item);
                } else if !before.contains(last) {
                    assert(distinct(items)[before.len() as int] == item);
                }
            }
            if distinct(items).contains(item) {
                let k = choose|k: int| 0 <= k < distinct(items).len() && distinct(items)[k] == item;
                if k < before.len() {
                    assert(before[k] == item);
                    assert(before.contains(item));
                    assert(rest.contains(item));
                    let j = choose|j: int| 0 <= j < rest.len() && rest[j] == item;
                    assert(items[j] == item);
                } else {
                    assert(items[items.len() - 1] == item);
                }
            }
        }
    }
}

/// A recipe without a directive line builds on no image.
pub proof fn lemma_no_directive_no_image(content: Seq<char>)
    requires
        forall|at: int|
            0 <= at < lines_of(content).len() ==> directive_on(
                trimmed(#[trigger] lines_of(content)[at]),
            ) is None,
    ensures
        directives_of(content).len() == 0,
        images_of(content).len() == 0,
        invalid_images_of(content).len() == 0,
{
    let lines = lines_of(content);
    let read = |line: Seq<char>| directive_on(trimmed(line));
    if directives_in(lines).len() > 0 {
        let directive = directives_in(lines)[0];
        assert(directives_in(lines).contains(directive));
        lines.lemma_filter_map_contains(read, directive);
        let line = choose|line: Seq<char>| #[trigger]
            lines.contains(line) && read(line) == Some(directive);
        let at = choose|at: int| 0 <= at < lines.len() && lines[at] == line;
        assert(directive_on(trimmed(lines[at])) is None);
    }
    reveal(Seq::filter);
}

/// Where one directive names a stage and another directive, before or after
/// it, has that name as its image token, the other pulls no image.
pub proof fn lemma_stage_is_no_image(directives: Seq<DirectiveView>, naming: int, using: int)
    requires
        0 <= naming < directives.len(),
        0 <= using < directives.len(),
        directives[naming].stage is Some,
        directives[using].image == directives[naming].stage,
    ensures
        reference_of(directives[using], declared_stages(directives)) is None,
{
    lemma_stage_is_declared(directives, naming);
}

/// Each image that directives pull is the reference of the image token of
/// one of them, and that token is not the name of a stage.
pub proof fn lemma_image_is_no_stage(directives: Seq<DirectiveView>, at: int)
    requires
        0 <= at < external_images(directives).len(),
    ensures
        !declared_stages(directives).contains(name_of(external_images(directives)[at])),
        exists|from: int|
            0 <= from < directives.len() && (#[trigger] directives[from]).image == Some(
                name_of(external_images(directives)[at]),
            ),
{
    let stages = declared_stages(directives);
    let pull = |directive: DirectiveView| reference_of(directive, stages);
    let image = external_images(directives)[at];
    assert(external_images(directives).contains(image));
    directives.lemma_filter_map_contains(pull, image);
    let directive = choose|directive: DirectiveView| #[trigger]
        directives.contains(directive) && pull(directive) == Some(image);
    let from = choose|from: int| 0 <= from < directives.len() && directives[from] == directive;
    lemma_name_of_parsed(directive.image->0);
    assert(directives[from].image == Some(name_of(image)));
}

/// A token without a colon stands for a reference without a tag, and such a
/// reference is floating.
pub proof fn lemma_untagged_is_floating(token: Seq<char>)
    requires
        !token.contains(':'),
    ensures
        parsed_image(token) == (ImageView { repository: token, tag: None }),
        floating(parsed_image(token)),
{
    token.index_of_first_ensures(':');
}

/// Writing out the reference of a token gives the token back.
pub proof fn lemma_name_of_parsed(token: Seq<char>)
    ensures
        name_of(parsed_image(token)) == token,
{
    token.index_of_first_ensures(':');
    match token.index_of_first(':') {
        Some(colon) => {
            assert(token.take(colon) + seq![':'] + token.skip(colon + 1) =~= token);
        },
        None => {},
    }
}

/// Reading the written form of a reference gives the reference back, where
/// its repository holds no colon.
pub proof fn lemma_parsed_of_name(image: ImageView)
    requires
        !image.repository.contains(':'),
    ensures
        parsed_image(name_of(image)) == image,
{
    let token = name_of(image);
    match image.tag {
        Some(tag) => {
            let colon = image.repository.len() as int;
            assert(token[colon] == ':');
            assert forall|j: int| 0 <= j < colon implies token[j] != ':' by {
                assert(token[j] == image.repository[j]);
                assert(image.repository.contains(token[j]));
            }
            lemma_first_occurrence(token, ':', colon);
            assert(token.take(colon) =~= image.repository);
            assert(token.skip(colon + 1) =~= tag);
        },
        None => {
            lemma_untagged_is_floating(token);
        },
    }
}

/// A recipe of two directives, of which the first names a stage and the
/// second builds on that stage, builds on the image of the first alone.
pub proof fn lemma_stage_and_its_use(content: Seq<char>, token: Seq<char>, alias: Seq<char>)
    requires
        token != alias,
        directives_of(content) == seq![
            DirectiveView { image: Some(token), stage: Some(alias) },
            DirectiveView { image: Some(alias), stage: None },
        ],
    ensures
        images_of(content) == seq![parsed_image(token)],
{
    let directives = directives_of(content);
    assert(directives.take(0).len() == 0);
    assert(directives.take(2) == directives);
    lemma_declared_stages_next(directives, 0);
    lemma_declared_stages_next(directives, 1);
    let stages = declared_stages(directives);
    assert(stages == seq![alias]);
    assert(stages[0] == alias);
    assert(!stages.contains(token));
    lemma_references_among_next(directives, stages, 0);
    lemma_references_among_next(directives, stages, 1);
    assert(references_among(directives.take(1), stages) == seq![parsed_image(token)]);
}

/// A recipe of one directive, whose image token holds no colon and which
/// names no stage, builds on that one image, which has no tag and is invalid.
pub proof fn lemma_single_untagged_image(content: Seq<char>, repository: Seq<char>)
    requires
        !repository.contains(':'),
        directives_of(content) == seq![DirectiveView { image: Some(repository), stage: None }],
    ensures
        images_of(content) == seq![ImageView { repository, tag: None }],
        invalid_images_of(content) == seq![ImageView { repository, tag: None }],
{
    let directives = directives_of(content);
    let image = ImageView { repository, tag: None };
    assert(directives.take(0).len() == 0);
    assert(directives.take(1) == directives);
    lemma_declared_stages_next(directives, 0);
    let stages = declared_stages(directives);
    assert(stages.len() == 0);
    lemma_references_among_next(directives, stages, 0);
    lemma_untagged_is_floating(repository);
    let images = images_of(content);
    assert(images == seq![image]);
    assert(images.take(0).len() == 0);
    assert(images.take(1) == images);
    reveal(Seq::filter);
    lemma_floating_among_next(images, 0);
    assert(floating_among(images) == seq![image]);
    lemma_distinct_push(Seq::<ImageView>::empty(), image);
    assert(Seq::<ImageView>::empty().push(image) == seq![image]);
}

/// The invalid images of a recipe are its floating images, each once.
pub proof fn lemma_invalid_images(content: Seq<char>)
    ensures
        invalid_images_of(content).no_duplicates(),
        forall|image: ImageView| #[trigger]
            invalid_images_of(content).contains(image) <==> images_of(content).contains(image)
                && floating(image),
{
    let images = images_of(content);
    let is_floating = |image: ImageView| floating(image);
    lemma_distinct(floating_among(images));
    assert forall|image: ImageView| #[trigger]
        invalid_images_of(content).contains(image) <==> images.contains(image) && floating(
            image,
        ) by {
        assert(distinct(floating_among(images)).contains(image) <==> floating_among(
            images,
        ).contains(image));
        if floating_among(images).contains(image) {
            images.lemma_filter_contains_rev(is_floating, image);
            let k = choose|k: int|
                0 <= k < floating_among(images).len() && floating_among(images)[k] == image;
            images.lemma_filter_pred(is_floating, k);
        }
        if images.contains(image) && floating(image) {
            let k = choose|k: int| 0 <= k < images.len() && images[k] == image;
            images.lemma_filter_contains(is_floating, k);
        }
    }
}

impl Image {
    /// Writes the reference as a token.
    pub fn name(&self) -> (token: String)
        ensures
            token@ == name_of(self@),
    {
        let mut token: String = self.repository.clone();
        match &self.tag {
            Some(tag) => {
                token.push(':');
                token.append(tag.as_str());
            },
            None => {},
        }
        token
    }

    /// Tells whether the reference is not reproducible. One without a tag
    /// never is reproducible.
    pub fn is_floating(&self) -> (yes: bool)
        ensures
            yes == floating(self@),
            self.tag is None ==> yes,
    {
        match &self.tag {
            Some(tag) => !is_pinned(tag.as_str()),
            None => true,
        }
    }
}

/// Tells whether `name` is among `names`.
pub fn names_contain(names: &Vec<String>, name: &String) -> (found: bool)
    ensures
        found == names.deep_view().contains(name@),
{
    let mut at: usize = 0;
    while at < names.len()
        invariant
            at <= names.len(),
            forall|j: int| 0 <= j < at ==> names.deep_view()[j] != name@,
        decreases names.len() - at,
    {
        if names[at] == *name {
            assert(names.deep_view()[at as int] == name@);
            return true;
        }
        at = at + 1;
    }
    false
}

/// Tells whether `image` is among `images`.
pub fn images_contain(images: &Vec<Image>, image: &Image) -> (found: bool)
    ensures
        found == images.deep_view().contains(image@),
{
    let mut at: usize = 0;
    while at < images.len()
        invariant
            at <= images.len(),
            forall|j: int| 0 <= j < at ==> images.deep_view()[j] != image@,
        decreases images.len() - at,
    {
        if images[at] == *image {
            assert(images.deep_view()[at as int] == image@);
            return true;
        }
        at = at + 1;
    }
    false
}

/// What a recipe's validation found: the images that are not reproducible,
/// each once.
pub struct ValidationResult {
    pub invalid_images: Vec<Image>,
}

impl View for ValidationResult {
    type V = Seq<ImageView>;

    open spec fn view(&self) -> Seq<ImageView> {
        self.invalid_images.deep_view()
    }
}

impl Dockerfile {
    /// The images that the recipe builds on: for each directive, in the order
    /// of the lines, the reference of its image token, unless the token names a
    /// stage that some directive of the recipe declares.
    pub fn images(&self) -> (images: Vec<Image>)
        ensures
            images.deep_view() == images_of(self.content@),
    {
        let directives: Vec<Directive> = read_directives(self.content.as_str());
        let stages: Vec<String> = stage_names(&directives);
        let mut images: Vec<Image> = Vec::new();
        let mut at: usize = 0;
        proof {
            assert(images.deep_view() =~= Seq::<ImageView>::empty());
            assert(directives.deep_view().take(0).len() == 0);
        }
        while at < directives.len()
            invariant
                at <= directives.len(),
                stages.deep_view() == declared_stages(directives.deep_view()),
                images.deep_view() == references_among(
                    directives.deep_view().take(at as int),
                    stages.deep_view(),
                ),
            decreases directives.len() - at,
        {
            let ghost before = images.deep_view();
            proof {
                lemma_references_among_next(directives.deep_view(), stages.deep_view(), at as int);
            }
            match &directives[at].image {
                Some(token) => {
                    if !names_contain(&stages, token) {
                        let image: Image = self.parse_image_name(token.as_str());
                        images.push(image);
                        assert(images.deep_view() =~= before.push(image@));
                    }
                },
                None => {},
            }
            at = at + 1;
        }
        proof {
            assert(directives.deep_view().take(directives.len() as int)
                == directives.deep_view());
        }
        images
    }

    /// The images of the recipe that are not reproducible, each once, in the
    /// order in which the recipe first names them.
    pub fn validate_image_tags(&self) -> (invalid: Vec<Image>)
        ensures
            invalid.deep_view() == invalid_images_of(self.content@),
    {
        let images: Vec<Image> = self.images();
        let ghost all = images.deep_view();
        let mut invalid: Vec<Image> = Vec::new();
        proof {
            assert(invalid.deep_view() =~= Seq::<ImageView>::empty());
            assert(all.take(0).len() == 0);
            reveal(Seq::filter);
        }
        for image in it: images
            invariant
                it.seq().len() == all.len(),
                forall|j: int| 0 <= j < all.len() ==> (#[trigger] it.seq()[j])@ == all[j],
                invalid.deep_view() == distinct(floating_among(all.take(it.index() as int))),
        {
            let ghost before = invalid.deep_view();
            proof {
                lemma_floating_among_next(all, it.index() as int);
                lemma_distinct_push(floating_among(all.take(it.index() as int)), image@);
            }
            if image.is_floating() && !images_contain(&invalid, &image) {
                invalid.push(image);
                assert(invalid.deep_view() =~= before.push(image@));
            }
        }
        proof {
            assert(all.take(all.len() as int) == all);
        }
        invalid
    }

    /// Validates the recipe: finds the images it builds on that are not
    /// reproducible. Each is named once, and each is one of the recipe's images.
    pub fn validate(&self) -> (result: ValidationResult)
        ensures
            result@ == invalid_images_of(self.content@),
            result@.no_duplicates(),
            forall|image: ImageView| #[trigger]
                result@.contains(image) <==> images_of(self.content@).contains(image) && floating(
                    image,
                ),
    {
        let invalid_images: Vec<Image> = self.validate_image_tags();
        proof {
            lemma_invalid_images(self.content@);
            assert(invalid_images.deep_view() == invalid_images_of(self.content@));
        }
        ValidationResult { invalid_images }
    }

    /// Splits an image token at its first colon into repository and tag. A
    /// token without a colon gives a reference without a tag, and the reference
    /// written out is the token again.
    pub fn parse_image_name(&self, image_name: &str) -> (image: Image)
        ensures
            image@ == parsed_image(image_name@),
            name_of(image@) == image_name@,
            !image_name@.contains(':') ==> image.tag is None && image.repository@ == image_name@,
    {
        proof {
            lemma_name_of_parsed(image_name@);
            if !image_name@.contains(':') {
                lemma_untagged_is_floating(image_name@);
            }
        }
        let chars: Vec<char> = chars_of(image_name);
        let n: usize = chars.len();
        let mut colon: usize = 0;
        while colon < n && chars[colon] != ':'
            invariant
                colon <= n == chars@.len(),
                forall|j: int| 0 <= j < colon ==> chars@[j] != ':',
            decreases n - colon,
        {
            colon = colon + 1;
        }
        if colon < n {
            proof {
                lemma_first_occurrence(chars@, ':', colon as int);
            }
            Image {
                repository: string_of(&chars, 0, colon),
                tag: Some(string_of(&chars, colon + 1, n)),
            }
        } else {
            proof {
                lemma_no_occurrence(chars@, ':');
                assert(chars@.subrange(0, n as int) == chars@);
            }
            Image { repository: string_of(&chars, 0, n), tag: None }
        }
    }
}

} // verus!
