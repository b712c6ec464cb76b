//! Rendering of colour entries as Compose colour schemes, and of the theme
//! file that declares them.

use crate::extract::{entries_view, Entry};
use crate::text::{chars_of, find, first_occurrence, lemma_first_occurrence_is_first};
use vstd::prelude::*;
use vstd::string::*;

verus! {

/// One argument of a scheme: the name, ` = `, the value.
pub open spec fn entry_line(entry: Entry) -> Seq<char> {
    entry.0 + " = "@ + entry.1
}

/// The lines of `entries`, with a line feed between each two.
pub open spec fn joined_lines(entries: Seq<Entry>) -> Seq<char>
    decreases entries.len(),
{
    if entries.len() == 0 {
        Seq::empty()
    } else if entries.len() == 1 {
        entry_line(entries[0])
    } else {
        joined_lines(entries.drop_last()) + "\n"@ + entry_line(entries.last())
    }
}

/// The call of `function_name` with `entries` as its arguments.
pub open spec fn scheme_text(function_name: Seq<char>, entries: Seq<Entry>) -> Seq<char> {
    function_name + " (\n "@ + joined_lines(entries) + ")"@
}

/// The call of the light scheme's builder.
pub open spec fn light_scheme_text(entries: Seq<Entry>) -> Seq<char> {
    scheme_text("lightColorScheme"@, entries)
}

/// The call of the dark scheme's builder.
pub open spec fn dark_scheme_text(entries: Seq<Entry>) -> Seq<char> {
    scheme_text("darkColorScheme"@, entries)
}

/// The three imports of every theme file.
pub open spec fn imports() -> Seq<char> {
    "import androidx.compose.ui.graphics.Color\nimport androidx.compose.material3.lightColorScheme\nimport androidx.compose.material3.darkColorScheme"@
}

/// The theme file: the package, the imports and the two schemes, one line
/// feed between each two.
pub open spec fn output_text(namespace: Seq<char>, light: Seq<char>, dark: Seq<char>) -> Seq<
    char,
> {
    "package "@ + namespace + "\n"@ + imports() + "\n"@ + "val LightColorScheme = "@ + light
        + "\n"@ + "val DarkColorScheme = "@ + dark
}

/// The part of `path` that names the package: what follows the first
/// `/kotlin/`, else what follows the first `/main/`, else all of it.
pub open spec fn namespace_source(path: Seq<char>) -> Seq<char> {
    match first_occurrence(path, "/kotlin/"@) {
        Some(i) => path.skip(i + "/kotlin/"@.len()),
        None => match first_occurrence(path, "/main/"@) {
            Some(i) => path.skip(i + "/main/"@.len()),
            None => path,
        },
    }
}

/// A dot for a slash, any other character as it is.
pub open spec fn dotted(c: char) -> char {
    if c == '/' {
        '.'
    } else {
        c
    }
}

/// The package of the file at `path`: the naming part of the path with a
/// dot for every slash. Nothing else is changed, so a file suffix stays.
pub open spec fn namespace_of(path: Seq<char>) -> Seq<char> {
    namespace_source(path).map_values(|c: char| dotted(c))
}

/// A package holds no slash, and as many characters as the part of the
/// path it is made from.
pub proof fn lemma_namespace_is_dotted(path: Seq<char>)
    ensures
        !namespace_of(path).contains('/'),
        namespace_of(path).len() == namespace_source(path).len(),
        forall|i: int|
            0 <= i < namespace_source(path).len() && namespace_source(path)[i] != '/'
                ==> #[trigger] namespace_of(path)[i] == namespace_source(path)[i],
{
}

/// Renders `colors` as a call of `function_name`.
pub fn construct_color_scheme(function_name: &str, colors: &[(&str, &str)]) -> (out: String)
    ensures
        out@ == scheme_text(function_name@, entries_view(colors@)),
{
    let mut out = String::from_str(function_name);
    out.append(" (\n ");
    let ghost head = out@;
    let ghost entries = entries_view(colors@);
    let n: usize = colors.len();
    let mut i: usize = 0;
    while i < n
        invariant
            i <= n == colors@.len(),
            entries == entries_view(colors@),
            out@ == head + joined_lines(entries.take(i as int)),
        decreases n - i,
    {
        let ghost before = out@;
        if i > 0 {
            out.append("\n");
        }
        out.append(colors[i].0);
        out.append(" = ");
        out.append(colors[i].1);
        proof {
            let now = entries.take(i + 1);
            assert(now.drop_last() =~= entries.take(i as int));
            assert(now.last() == (colors@[i as int].0@, colors@[i as int].1@));
            if i == 0 {
                assert(joined_lines(entries.take(0)) =~= Seq::<char>::empty());
                assert(out@ =~= head + joined_lines(now));
            } else {
                assert(out@ =~= head + joined_lines(now));
            }
        }
        i += 1;
    }
    proof {
        assert(entries.take(n as int) =~= entries);
    }
    out.append(")");
    out
}

/// The package of the file at `path`. The path is taken as text: nothing
/// is looked up, and a file suffix stays in the package.
pub fn derive_namespace(path: &str) -> (out: String)
    ensures
        out@ == namespace_of(path@),
{
    let chars = chars_of(path);
    let text = chars.as_slice();
    let n: usize = text.len();
    let kotlin = chars_of("/kotlin/");
    let main = chars_of("/main/");
    proof {
        assert(text@.subrange(0, n as int) =~= text@);
        lemma_first_occurrence_is_first(text@, kotlin@);
        lemma_first_occurrence_is_first(text@, main@);
    }
    let from: usize = match find(text, 0, n, kotlin.as_slice()) {
        Some(i) => i + kotlin.len(),
        None => match find(text, 0, n, main.as_slice()) {
            Some(i) => i + main.len(),
            None => 0,
        },
    };
    proof {
        assert(text@.skip(0) =~= text@);
    }
    let ghost source = text@.skip(from as int);
    let mut out = String::new();
    let mut i: usize = from;
    while i < n
        invariant
            from <= i <= n == text@.len(),
            source == text@.skip(from as int),
            out@ == source.take(i - from).map_values(|c: char| dotted(c)),
        decreases n - i,
    {
        let c = text[i];
        if c == '/' {
            out.push('.');
        } else {
            out.push(c);
        }
        proof {
            assert(source.take(i + 1 - from).map_values(|c: char| dotted(c)) =~= source.take(
                i - from,
            ).map_values(|c: char| dotted(c)).push(dotted(c)));
        }
        i += 1;
    }
    proof {
        assert(source.take(n - from) =~= source);
    }
    out
}

/// The text of the theme file for a package and the two rendered schemes.
pub fn compose_output(namespace: &str, light_block: &str, dark_block: &str) -> (out: String)
    ensures
        out@ == output_text(namespace@, light_block@, dark_block@),
{
    let mut out = String::from_str("package ");
    out.append(namespace);
    out.append("\n");
    out.append(
        "import androidx.compose.ui.graphics.Color\nimport androidx.compose.material3.lightColorScheme\nimport androidx.compose.material3.darkColorScheme",
    );
    out.append("\n");
    out.append("val LightColorScheme = ");
    out.append(light_block);
    out.append("\n");
    out.append("val DarkColorScheme = ");
    out.append(dark_block);
    out
}

} // verus!
