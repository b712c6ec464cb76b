//! The extractor over the source text of a generated theme.

use crate::extract::{
    block_span, declarations, document_entries, entries_view, entry_of, extract_colors,
    is_declaration, lemma_parse_lines_first_malformed, lemma_well_formed_document, lines,
    split_halves, start_marker, well_formed, Boundary, Entry, ExtractError, Failure,
};
use crate::text::occurs_at;
use crate::render::{
    compose_output, construct_color_scheme, dark_scheme_text, derive_namespace, light_scheme_text,
    namespace_of, output_text, scheme_text,
};
use vstd::prelude::*;
use vstd::string::*;

verus! {

/// The entry of a theme archive that holds the colour declarations.
pub const COLOR_FILE: &'static str = "ui/theme/Color.kt";

/// The generated colour source of a Material 3 theme, from which the two
/// colour schemes are extracted.
pub struct Material3BuilderExtractor(String);

impl View for Material3BuilderExtractor {
    type V = Seq<char>;

    closed spec fn view(&self) -> Seq<char> {
        self.0@
    }
}

/// The first half of `entries`: the light colours. The split is by
/// position alone: nothing in an entry tells a light colour from a dark
/// one, so the declarations must list all light colours first, and as many
/// of them as dark ones.
pub open spec fn light_half(entries: Seq<Entry>) -> Seq<Entry> {
    entries.take(entries.len() as int / 2)
}

/// The second half of `entries`: the dark colours. Of an odd number it
/// holds one more than the first.
pub open spec fn dark_half(entries: Seq<Entry>) -> Seq<Entry> {
    entries.skip(entries.len() as int / 2)
}

/// The theme file written to `path` for the document `text`.
pub open spec fn theme_source(text: Seq<char>, path: Seq<char>) -> Result<Seq<char>, Failure> {
    match document_entries(text) {
        Err(f) => Err(f),
        Ok(entries) => Ok(
            output_text(
                namespace_of(path),
                light_scheme_text(light_half(entries)),
                dark_scheme_text(dark_half(entries)),
            ),
        ),
    }
}

/// The two halves are the whole, in order; the light half holds half the
/// entries, rounded down, and an even number splits into equal halves.
pub proof fn lemma_halves(entries: Seq<Entry>)
    ensures
        light_half(entries) + dark_half(entries) == entries,
        light_half(entries).len() == entries.len() / 2,
        dark_half(entries).len() == entries.len() - entries.len() / 2,
        entries.len() % 2 == 0 ==> light_half(entries).len() == dark_half(entries).len(),
{
    assert(light_half(entries) + dark_half(entries) =~= entries);
}

/// A document with `n` well-formed declarations in its block, `n` even,
/// gives `n` entries, and each half holds `n / 2` of them.
pub proof fn lemma_even_document_splits_evenly(text: Seq<char>, n: nat)
    requires
        n % 2 == 0,
        block_span(text) is Ok,
        well_formed(lines(text.subrange(block_span(text)->Ok_0.0, block_span(text)->Ok_0.1))),
        declarations(
            lines(text.subrange(block_span(text)->Ok_0.0, block_span(text)->Ok_0.1)),
        ).len() == n,
    ensures
        document_entries(text) is Ok,
        document_entries(text)->Ok_0.len() == n,
        light_half(document_entries(text)->Ok_0).len() == n / 2,
        dark_half(document_entries(text)->Ok_0).len() == n / 2,
{
    lemma_well_formed_document(text, n);
    lemma_halves(document_entries(text)->Ok_0);
}

/// A document in which the start marker stands nowhere has no block, no
/// entries and no theme file: each fails for want of the start marker.
pub proof fn lemma_missing_start_marker(text: Seq<char>, path: Seq<char>)
    requires
        forall|i: int| !occurs_at(text, start_marker(), i),
    ensures
        block_span(text) == Err::<(int, int), Failure>(Failure::MarkerNotFound(Boundary::Start)),
        document_entries(text) == Err::<Seq<Entry>, Failure>(
            Failure::MarkerNotFound(Boundary::Start),
        ),
        theme_source(text, path) == Err::<Seq<char>, Failure>(
            Failure::MarkerNotFound(Boundary::Start),
        ),
{
}

/// A document whose block holds a declaration without an entry, behind
/// well-formed lines only, has no entries and no theme file: each fails
/// with that declaration.
pub proof fn lemma_malformed_declaration(text: Seq<char>, path: Seq<char>, i: int)
    requires
        block_span(text) is Ok,
        0 <= i < lines(text.subrange(block_span(text)->Ok_0.0, block_span(text)->Ok_0.1)).len(),
        is_declaration(
            lines(text.subrange(block_span(text)->Ok_0.0, block_span(text)->Ok_0.1))[i],
        ),
        entry_of(
            lines(text.subrange(block_span(text)->Ok_0.0, block_span(text)->Ok_0.1))[i],
        ) is None,
        well_formed(
            lines(text.subrange(block_span(text)->Ok_0.0, block_span(text)->Ok_0.1)).take(i),
        ),
    ensures
        document_entries(text) == Err::<Seq<Entry>, Failure>(
            Failure::MalformedDeclaration(
                lines(text.subrange(block_span(text)->Ok_0.0, block_span(text)->Ok_0.1))[i],
            ),
        ),
        theme_source(text, path) == Err::<Seq<char>, Failure>(
            Failure::MalformedDeclaration(
                lines(text.subrange(block_span(text)->Ok_0.0, block_span(text)->Ok_0.1))[i],
            ),
        ),
{
    let span = block_span(text)->Ok_0;
    lemma_parse_lines_first_malformed(lines(text.subrange(span.0, span.1)), i);
}

/// What a rendering of the document `text` for the file at `path` may
/// return: the theme file, or the failure of the extraction.
pub open spec fn is_rendering(
    text: Seq<char>,
    path: Seq<char>,
    r: Result<String, ExtractError>,
) -> bool {
    match r {
        Ok(content) => theme_source(text, path) == Ok::<Seq<char>, Failure>(content@),
        Err(e) => theme_source(text, path) == Err::<Seq<char>, Failure>(e@),
    }
}

/// Two renderings of one document for one path agree: both succeed with
/// the same content, or both fail in the same way.
pub proof fn lemma_rendering_repeats(
    text: Seq<char>,
    path: Seq<char>,
    first: Result<String, ExtractError>,
    second: Result<String, ExtractError>,
)
    requires
        is_rendering(text, path, first),
        is_rendering(text, path, second),
    ensures
        first is Ok <==> second is Ok,
        first is Ok ==> first->Ok_0@ == second->Ok_0@,
        first is Err ==> first->Err_0@ == second->Err_0@,
{
}

/// `transform` can be called with the two halves of `entries`, whatever
/// slices hold them.
pub open spec fn accepts_halves<F, T>(transform: F, entries: Seq<Entry>) -> bool where
    F: FnOnce(&[(&str, &str)], &[(&str, &str)]) -> T,
 {
    forall|light: &[(&str, &str)], dark: &[(&str, &str)]|
        #![trigger transform.requires((light, dark))]
        entries_view(light@) == light_half(entries) && entries_view(dark@) == dark_half(entries)
            ==> transform.requires((light, dark))
}

/// `t` is what `transform` can return for the two halves of `entries`.
pub open spec fn returns_for_halves<F, T>(transform: F, entries: Seq<Entry>, t: T) -> bool where
    F: FnOnce(&[(&str, &str)], &[(&str, &str)]) -> T,
 {
    exists|light: &[(&str, &str)], dark: &[(&str, &str)]|
        #![trigger transform.ensures((light, dark), t)]
        entries_view(light@) == light_half(entries) && entries_view(dark@) == dark_half(entries)
            && transform.ensures((light, dark), t)
}

impl Material3BuilderExtractor {
    /// An extractor over `text`, the content of the theme's colour file.
    pub fn new(text: String) -> (out: Self)
        ensures
            out@ == text@,
    {
        Material3BuilderExtractor(text)
    }

    /// The text that the extractor reads.
    pub fn text(&self) -> (out: &str)
        ensures
            out@ == self@,
    {
        self.0.as_str()
    }

    /// Extracts the colours, splits them into the light and the dark half
    /// and hands both to `transform`.
    pub fn extract_and<F, T>(&self, transform: F) -> (r: Result<T, ExtractError>) where
        F: FnOnce(&[(&str, &str)], &[(&str, &str)]) -> T,

        requires
            document_entries(self@) is Ok ==> accepts_halves(
                transform,
                document_entries(self@)->Ok_0,
            ),
        ensures
            r matches Ok(t) ==> document_entries(self@) is Ok && returns_for_halves(
                transform,
                document_entries(self@)->Ok_0,
                t,
            ),
            r matches Err(e) ==> document_entries(self@) == Err::<Seq<Entry>, Failure>(e@),
    {
        match Self::extract_colors(self.0.as_str()) {
            Err(e) => Err(e),
            Ok(colors) => {
                let (light, dark) = split_halves(colors.as_slice());
                proof {
                    let all = entries_view(colors@);
                    assert(entries_view(light@) =~= light_half(all));
                    assert(entries_view(dark@) =~= dark_half(all));
                }
                let t = transform(light, dark);
                proof {
                    assert(entries_view(light@) == light_half(entries_view(colors@))
                        && entries_view(dark@) == dark_half(entries_view(colors@))
                        && transform.ensures((light, dark), t));
                }
                Ok(t)
            },
        }
    }

    /// The entries declared in the block of the document `string`, each a
    /// slice of it.
    pub fn extract_colors<'a>(string: &'a str) -> (r: Result<
        Vec<(&'a str, &'a str)>,
        ExtractError,
    >)
        ensures
            match r {
                Ok(entries) => document_entries(string@) == Ok::<Seq<Entry>, Failure>(
                    entries_view(entries@),
                ),
                Err(e) => document_entries(string@) == Err::<Seq<Entry>, Failure>(e@),
            },
    {
        extract_colors(string)
    }

    /// Renders `colors` as the light colour scheme.
    pub fn light_color_scheme(colors: &[(&str, &str)]) -> (out: String)
        ensures
            out@ == light_scheme_text(entries_view(colors@)),
    {
        Self::color_scheme("lightColorScheme", colors)
    }

    /// Renders `colors` as the dark colour scheme.
    pub fn dark_color_scheme(colors: &[(&str, &str)]) -> (out: String)
        ensures
            out@ == dark_scheme_text(entries_view(colors@)),
    {
        Self::color_scheme("darkColorScheme", colors)
    }

    /// Renders `colors` as a call of `function_name`.
    pub fn color_scheme(function_name: &str, colors: &[(&str, &str)]) -> (out: String)
        ensures
            out@ == scheme_text(function_name@, entries_view(colors@)),
    {
        construct_color_scheme(function_name, colors)
    }

    /// The content of the theme file that belongs at `directory`, the path
    /// of the file: nothing is written here.
    pub fn extract_and_render(&self, directory: &str) -> (r: Result<String, ExtractError>)
        ensures
            is_rendering(self@, directory@, r),
    {
        match Self::extract_colors(self.0.as_str()) {
            Err(e) => Err(e),
            Ok(colors) => {
                let (light_colors, dark_colors) = split_halves(colors.as_slice());
                proof {
                    let all = entries_view(colors@);
                    assert(entries_view(light_colors@) =~= light_half(all));
                    assert(entries_view(dark_colors@) =~= dark_half(all));
                }
                let light = Self::light_color_scheme(light_colors);
                let dark = Self::dark_color_scheme(dark_colors);
                let namespace = derive_namespace(directory);
                Ok(compose_output(namespace.as_str(), light.as_str(), dark.as_str()))
            },
        }
    }
}

} // verus!
