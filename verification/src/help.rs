//! The embedded help catalog: a fixed set of pages under the `help://`
//! scheme, a well-known main page, and a keyword search that prefers
//! section headings over body matches.

use vstd::prelude::*;

verus! {

/// How many pages the catalog holds.
pub fn help_page_count() -> (r: usize)
    ensures
        r == 3,
{
    3
}

/// The path of page `index`.
pub fn help_page_path(index: usize) -> (r: &'static str)
    requires
        index < 3,
{
    if index == 0 {
        "help://bindings.md"
    } else if index == 1 {
        "help://command_reference.md"
    } else {
        "help://help.md"
    }
}

/// The content of page `index`.
pub fn help_page_content(index: usize) -> (r: &'static str)
    requires
        index < 3,
{
    if index == 0 {
        "# bindings\nkeys rewrite through the active mode's maps\n# chords\ncontrol and alt chords take one ascii letter or digit\n"
    } else if index == 1 {
        "# commands\ncommands run against the focused buffer\nopen, save, close, quit\n"
    } else {
        "# help\nthis is the main help page\nsearch finds headings first\n"
    }
}

/// The path of the main help page.
pub fn main_help_path() -> (r: &'static str) {
    "help://help.md"
}

/// The content behind a `help://` path, when the catalog holds it.
pub fn open(path: &[u8]) -> (r: Option<&'static str>) {
    let mut i: usize = 0;
    while i < 3
        invariant
            i <= 3,
        decreases 3 - i,
    {
        let page_path = help_page_path(i);
        if crate::worddb::bytes_eq(page_path.as_bytes(), path) {
            return Some(help_page_content(i));
        }
        i = i + 1;
    }
    None
}

/// Find `keyword` in the catalog: a page whose name equals the keyword wins
/// outright; otherwise the first heading line holding it, and failing that
/// the last body line holding it. The result is the page's path and the
/// line index of the match.
pub fn search(keyword: &[u8]) -> (r: Option<(&'static str, usize)>) {
    let mut last_match: Option<(&'static str, usize)> = None;
    let mut i: usize = 0;
    while i < 3
        invariant
            i <= 3,
        decreases 3 - i,
    {
        let path = help_page_path(i);
        let content = help_page_content(i);
        if name_matches(path.as_bytes(), keyword) {
            return Some((path, 0));
        }
        let lines = crate::text::split_text(content.as_bytes());
        let mut li: usize = 0;
        let n = lines.len();
        while li < n
            invariant
                li <= n,
                n == lines@.len(),
                i < 3,
            decreases n - li,
        {
            let line = &lines[li];
            if contains_keyword(line.as_slice(), keyword) {
                if line.len() > 0 && line.as_slice()[0] == 0x23u8 {
                    return Some((path, li));
                }
                last_match = Some((path, li));
            }
            li = li + 1;
        }
        i = i + 1;
    }
    last_match
}

/// Whether the page name between the scheme and the extension equals the
/// keyword.
fn name_matches(path: &[u8], keyword: &[u8]) -> (r: bool) {
    // strip "help://" and ".md"
    if path.len() < 10 {
        return false;
    }
    let name = crate::text::copy_range(path, 7, path.len() - 3);
    crate::worddb::bytes_eq(name.as_slice(), keyword)
}

/// Whether `line` holds `keyword` as a contiguous byte run.
fn contains_keyword(line: &[u8], keyword: &[u8]) -> (r: bool) {
    if keyword.len() == 0 {
        return true;
    }
    match crate::pattern::find_subsequence(line, 0, keyword) {
        Some(_) => true,
        None => false,
    }
}

} // verus!
