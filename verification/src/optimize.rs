//! The two rendered schemes of a theme, kept until the file is composed.

use crate::extract::{
    document_entries, entries_view, extract_colors, split_halves, ExtractError, Failure,
};
use crate::extractor::{dark_half, light_half};
use crate::render::{
    compose_output, construct_color_scheme, dark_scheme_text, derive_namespace, light_scheme_text,
    namespace_of, output_text,
};
use vstd::prelude::*;
use vstd::string::*;

verus! {

/// The light and the dark colour scheme of a theme, rendered.
pub struct OptimzeResult {
    light: String,
    dark: String,
}

impl OptimzeResult {
    /// The rendered light scheme.
    pub closed spec fn light_view(&self) -> Seq<char> {
        self.light@
    }

    /// The rendered dark scheme.
    pub closed spec fn dark_view(&self) -> Seq<char> {
        self.dark@
    }

    /// Extracts the colours of the document `text` and renders the first
    /// half as the light scheme, the second as the dark one.
    pub fn try_from(text: &str) -> (r: Result<Self, ExtractError>)
        ensures
            match r {
                Ok(out) => {
                    &&& document_entries(text@) is Ok
                    &&& out.light_view() == light_scheme_text(
                        light_half(document_entries(text@)->Ok_0),
                    )
                    &&& out.dark_view() == dark_scheme_text(
                        dark_half(document_entries(text@)->Ok_0),
                    )
                },
                Err(e) => document_entries(text@) == Err::<Seq<(Seq<char>, Seq<char>)>, Failure>(
                    e@,
                ),
            },
    {
        match extract_colors(text) {
            Err(e) => Err(e),
            Ok(colors) => {
                let (light_colors, dark_colors) = split_halves(colors.as_slice());
                proof {
                    let all = entries_view(colors@);
                    assert(entries_view(light_colors@) =~= light_half(all));
                    assert(entries_view(dark_colors@) =~= dark_half(all));
                }
                let light = construct_color_scheme("lightColorScheme", light_colors);
                let dark = construct_color_scheme("darkColorScheme", dark_colors);
                Ok(OptimzeResult { light, dark })
            },
        }
    }

    /// The rendered light scheme.
    pub fn light(&self) -> (out: &str)
        ensures
            out@ == self.light_view(),
    {
        self.light.as_str()
    }

    /// The rendered dark scheme.
    pub fn dark(&self) -> (out: &str)
        ensures
            out@ == self.dark_view(),
    {
        self.dark.as_str()
    }

    /// The content of the theme file that belongs at `output_directory`,
    /// the path of the file.
    pub fn file_content(&self, output_directory: &str) -> (out: String)
        ensures
            out@ == output_text(
                namespace_of(output_directory@),
                self.light_view(),
                self.dark_view(),
            ),
    {
        let namespace = derive_namespace(output_directory);
        compose_output(namespace.as_str(), self.light.as_str(), self.dark.as_str())
    }
}

} // verus!
