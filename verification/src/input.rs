//! File discovery and language detection.
//!
//! A file's language comes from its extension, compared without regard to
//! ASCII case, through the extension catalog of the languages. The files of a
//! walked directory are kept when their language is detected (and, when a
//! language filter is given, allowed), then sorted by path.
use vstd::prelude::*;

use crate::lang::{spec_all_languages, LangId};
use crate::order::{sort_stable, sorted_by_key, stable_sorted, SortKey};
use crate::paths::{compare_paths, extension, extension_of, lemma_path_order, path_order};
use crate::text::{ascii_lower_seq, push_str, str_eq, string_from, to_ascii_lower};

verus! {

/// The first of `langs` whose catalog lists the extension `ext`.
pub open spec fn language_with_extension_in(langs: Seq<LangId>, ext: Seq<char>) -> Option<LangId>
    decreases langs.len(),
{
    if langs.len() == 0 {
        None
    } else if langs[0].spec_extensions().contains(ext) {
        Some(langs[0])
    } else {
        language_with_extension_in(langs.drop_first(), ext)
    }
}

/// The language whose catalog lists the (lower-case) extension `ext`.
pub open spec fn language_with_extension(ext: Seq<char>) -> Option<LangId> {
    language_with_extension_in(spec_all_languages(), ext)
}

/// The language of a path: that of its extension, ASCII lower-cased.
pub open spec fn spec_detect_language(path: Seq<char>) -> Option<LangId> {
    match extension(path) {
        Some(ext) => language_with_extension(ascii_lower_seq(ext)),
        None => None,
    }
}

/// Whether the catalog of `lang` lists `ext`.
fn lists_extension(lang: LangId, ext: &str) -> (r: bool)
    ensures
        r == lang.spec_extensions().contains(ext@),
{
    let exts = lang.extensions();
    let mut i: usize = 0;
    while i < exts.len()
        invariant
            exts@.len() == lang.spec_extensions().len(),
            forall|k: int| 0 <= k < exts@.len() ==> #[trigger] exts@[k]@ == lang.spec_extensions()[k],
            0 <= i <= exts@.len(),
            forall|k: int| 0 <= k < i ==> lang.spec_extensions()[k] != ext@,
        decreases exts@.len() - i,
    {
        if str_eq(exts[i], ext) {
            proof {
                assert(lang.spec_extensions()[i as int] == ext@);
            }
            return true;
        }
        i = i + 1;
    }
    false
}

/// The language whose catalog lists `ext` (see [`language_with_extension`]).
fn extension_language(ext: &str) -> (r: Option<LangId>)
    ensures
        r == language_with_extension(ext@),
{
    let all = LangId::all();
    let mut i: usize = 0;
    proof {
        assert(all@.skip(0) =~= all@);
    }
    while i < all.len()
        invariant
            all@ == spec_all_languages(),
            0 <= i <= all@.len(),
            language_with_extension(ext@) == language_with_extension_in(all@.skip(i as int), ext@),
        decreases all@.len() - i,
    {
        proof {
            assert(all@.skip(i as int).drop_first() =~= all@.skip(i + 1));
            assert(all@.skip(i as int)[0] == all@[i as int]);
        }
        if lists_extension(all[i], ext) {
            return Some(all[i]);
        }
        i = i + 1;
    }
    None
}

/// The language of a file, from its extension regardless of ASCII case;
/// `None` for a path without an extension or with an unknown one.
pub fn detect_language(path: &str) -> (r: Option<LangId>)
    ensures
        r == spec_detect_language(path@),
{
    match extension_of(path) {
        Some(ext) => {
            let lower = to_ascii_lower(ext.as_str());
            extension_language(lower.as_str())
        },
        None => None,
    }
}

/// Every extension of the catalog is detected as its own language.
pub proof fn lemma_catalog_extensions_detected(lang: LangId, k: int)
    requires
        0 <= k < lang.spec_extensions().len(),
    ensures
        language_with_extension(lang.spec_extensions()[k]) == Some(lang),
        ascii_lower_seq(lang.spec_extensions()[k]) == lang.spec_extensions()[k],
{
    reveal_strlit("py");
    reveal_strlit("pyi");
    reveal_strlit("js");
    reveal_strlit("mjs");
    reveal_strlit("cjs");
    reveal_strlit("jsx");
    reveal_strlit("ts");
    reveal_strlit("cts");
    reveal_strlit("mts");
    reveal_strlit("tsx");
    reveal_strlit("c");
    reveal_strlit("h");
    reveal_strlit("cc");
    reveal_strlit("cpp");
    reveal_strlit("cxx");
    reveal_strlit("hpp");
    reveal_strlit("hh");
    reveal_strlit("hxx");
    reveal_strlit("rs");
    reveal_strlit("go");
    reveal_strlit("rb");
    let ext = lang.spec_extensions()[k];
    assert(ascii_lower_seq(ext) =~= ext);
    let all = spec_all_languages();
    assert forall|j: int| 0 <= j < 9 && all[j] != lang implies !(#[trigger] all[j]).spec_extensions().contains(ext) by {
        if all[j].spec_extensions().contains(ext) {
            let m = choose|m: int| 0 <= m < all[j].spec_extensions().len() && all[j].spec_extensions()[m] == ext;
            let other = all[j].spec_extensions()[m];
            assert(other.len() == ext.len());
            assert(other[0] == ext[0]);
            if ext.len() > 1 {
                assert(other[1] == ext[1]);
            }
            if ext.len() > 2 {
                assert(other[2] == ext[2]);
            }
        }
    }
    assert(lang.spec_extensions().contains(ext));
    reveal_with_fuel(language_with_extension_in, 10);
    assert(all.drop_first().drop_first().drop_first().drop_first().drop_first().drop_first().drop_first().drop_first().drop_first().len() == 0);
}

/// A discovered source file and its language.
#[derive(Debug, Clone)]
pub struct DiscoveredFile {
    pub path: String,
    pub language: LangId,
}

impl SortKey for DiscoveredFile {
    open spec fn key_order(self, other: Self) -> int {
        path_order(self.path@, other.path@)
    }

    proof fn lemma_key_order(a: Self, b: Self, c: Self) {
        lemma_path_order(a.path@, b.path@, c.path@);
    }

    fn compare_keys(&self, other: &Self) -> (r: i8) {
        compare_paths(self.path.as_str(), other.path.as_str())
    }
}

/// What the file system showed of the root that files are discovered from.
#[derive(Debug)]
pub enum RootProbe {
    /// The root is a file.
    File(String),
    /// Nothing exists at the root, which is given as displayed.
    Missing(String),
    /// The root is a directory: the files its walk found, in walk order.
    Directory(Vec<String>),
}

/// A language passes the filter: there is none, or it lists the language.
pub open spec fn allowed(languages: Option<Seq<LangId>>, lang: LangId) -> bool {
    match languages {
        Some(ls) => ls.contains(lang),
        None => true,
    }
}

/// The walked files whose language is detected and allowed, in walk order.
pub open spec fn detected_files(paths: Seq<String>, languages: Option<Seq<LangId>>) -> Seq<DiscoveredFile>
    decreases paths.len(),
{
    if paths.len() == 0 {
        Seq::empty()
    } else {
        let prev = detected_files(paths.drop_last(), languages);
        match spec_detect_language(paths.last()@) {
            Some(lang) => if allowed(languages, lang) {
                prev.push(DiscoveredFile { path: paths.last(), language: lang })
            } else {
                prev
            },
            None => prev,
        }
    }
}

/// The message for a root where nothing exists.
pub open spec fn missing_message(root: Seq<char>) -> Seq<char> {
    "path does not exist: "@ + root
}

/// The view of an optional language filter.
pub open spec fn filter_view(languages: Option<&Vec<LangId>>) -> Option<Seq<LangId>> {
    match languages {
        Some(ls) => Some(ls@),
        None => None,
    }
}

/// Whether the filter allows `lang`.
fn is_allowed(languages: Option<&Vec<LangId>>, lang: LangId) -> (r: bool)
    ensures
        r == allowed(filter_view(languages), lang),
{
    match languages {
        None => true,
        Some(ls) => {
            let mut i: usize = 0;
            while i < ls.len()
                invariant
                    filter_view(languages) == Some(ls@),
                    0 <= i <= ls@.len(),
                    forall|k: int| 0 <= k < i ==> ls@[k] != lang,
                decreases ls@.len() - i,
            {
                if ls[i] == lang {
                    proof {
                        assert(ls@[i as int] == lang);
                        assert(ls@.contains(lang));
                    }
                    return true;
                }
                i = i + 1;
            }
            false
        },
    }
}

/// The files to analyze under a root, with their languages.
///
/// A root that is a file gives that file when its language is detected (the
/// filter does not apply to it). A missing root is an error. A directory
/// gives the walked files whose language is detected and allowed, sorted by
/// path.
pub fn discover_files(root: &RootProbe, languages: Option<&Vec<LangId>>) -> (r: Result<Vec<DiscoveredFile>, String>)
    ensures
        match root {
            RootProbe::File(p) => r matches Ok(v) && v@ == match spec_detect_language(p@) {
                Some(lang) => seq![DiscoveredFile { path: *p, language: lang }],
                None => Seq::<DiscoveredFile>::empty(),
            },
            RootProbe::Missing(p) => r matches Err(e) && e@ == missing_message(p@),
            RootProbe::Directory(paths) => r matches Ok(v) && v@ == stable_sorted(
                detected_files(paths@, filter_view(languages)),
            ),
        },
        r matches Ok(v) ==> sorted_by_key(v@),
{
    match root {
        RootProbe::File(p) => {
            let mut out: Vec<DiscoveredFile> = Vec::new();
            if let Some(lang) = detect_language(p.as_str()) {
                out.push(DiscoveredFile { path: p.clone(), language: lang });
            }
            proof {
                if out@.len() == 1 {
                    assert(out@ =~= seq![DiscoveredFile { path: *p, language: out@[0].language }]);
                } else {
                    assert(out@ =~= Seq::<DiscoveredFile>::empty());
                }
            }
            Ok(out)
        },
        RootProbe::Missing(p) => {
            let mut msg = string_from("path does not exist: ");
            push_str(&mut msg, p.as_str());
            proof {
                reveal_strlit("path does not exist: ");
            }
            Err(msg)
        },
        RootProbe::Directory(paths) => {
            let mut found: Vec<DiscoveredFile> = Vec::new();
            let mut i: usize = 0;
            while i < paths.len()
                invariant
                    0 <= i <= paths@.len(),
                    found@ == detected_files(paths@.take(i as int), filter_view(languages)),
                decreases paths@.len() - i,
            {
                proof {
                    assert(paths@.take(i + 1).drop_last() =~= paths@.take(i as int));
                    assert(paths@.take(i + 1).last() == paths@[i as int]);
                }
                if let Some(lang) = detect_language(paths[i].as_str()) {
                    if is_allowed(languages, lang) {
                        found.push(DiscoveredFile { path: paths[i].clone(), language: lang });
                    }
                }
                i = i + 1;
            }
            proof {
                assert(paths@.take(paths@.len() as int) =~= paths@);
            }
            Ok(sort_stable(found))
        },
    }
}

} // verus!
