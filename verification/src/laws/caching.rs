//! What a cache of goodbye tables means for lookups.

use vstd::prelude::*;

use crate::accessor::model::{
    answer_at, directory_at, directory_with, may_open, DirectoryView, FileView,
};
use crate::accessor::Caches;
use crate::binary_tree_array::hits;
use crate::errors::Error;
use crate::format::goodbye::filename_hash;
use crate::format::GoodbyeItem;
use crate::path::{components_of, ComponentView};

verus! {

/// The cache hands out only the goodbye tables that are in the archive.
pub open spec fn faithful(archive: Seq<u8>, caches: Caches) -> bool {
    forall|end: u64, path: Seq<u8>, answer: Option<Vec<GoodbyeItem>>| #[trigger]
        answer_at(archive, end, path, caches, answer) ==> directory_with(archive, end, path, answer)
            == directory_at(archive, end, path)
}

/// With a cache that hands out only the goodbye tables that are in the archive, a lookup finds what
/// it finds without a cache.
pub proof fn law_faithful_cache(
    dir: DirectoryView,
    caches: Caches,
    path: Seq<u8>,
    outcome: Result<Option<FileView>, Error>,
)
    requires
        faithful(dir.archive, caches),
        dir.may_find(caches, path, outcome),
    ensures
        outcome == dir.lookup(path),
{
    lemma_faithful_components(dir, caches, components_of(path), true, None, outcome);
}

/// Whatever the cache, a lookup may find what it finds without one: no cache has to answer.
pub proof fn law_silent_cache(dir: DirectoryView, caches: Caches, path: Seq<u8>)
    ensures
        dir.may_find(caches, path, dir.lookup(path)),
{
    lemma_silent_components(dir, caches, components_of(path), true, None);
}

/// Without a cache a lookup has one outcome.
pub proof fn law_no_cache(
    dir: DirectoryView,
    caches: Caches,
    path: Seq<u8>,
    outcome: Result<Option<FileView>, Error>,
)
    requires
        caches.gbt_cache is None,
    ensures
        dir.may_find(caches, path, outcome) <==> outcome == dir.lookup(path),
{
    if dir.may_find(caches, path, outcome) {
        law_faithful_cache(dir, caches, path, outcome);
    }
    law_silent_cache(dir, caches, path);
}

/// What is found in a directory lies in the same archive.
proof fn lemma_found_in_archive(dir: DirectoryView, name: Seq<u8>, k: nat)
    ensures
        dir.lookup_from(name, k) matches Ok(Some(file)) ==> file.archive == dir.archive,
    decreases hits(dir.table, 0, filename_hash(name)).len() - k,
{
    let found = hits(dir.table, 0, filename_hash(name));
    if k < found.len() {
        lemma_found_in_archive(dir, name, k + 1);
    }
}

/// The outcome for the first of some path components.
proof fn lemma_faithful_first(
    dir: DirectoryView,
    caches: Caches,
    component: ComponentView,
    first: bool,
    cur: Option<FileView>,
    outcome: Result<Option<FileView>, Error>,
)
    requires
        faithful(dir.archive, caches),
        cur matches Some(file) ==> file.archive == dir.archive,
        dir.may_find_first(caches, component, first, cur, outcome),
    ensures
        outcome == dir.lookup_first(component, first, cur),
        outcome matches Ok(Some(file)) ==> file.archive == dir.archive,
{
    match (component, cur) {
        (ComponentView::Normal(name), Some(entry)) => {
            if entry.entry.kind is Directory {
                let opened = choose|opened: Result<DirectoryView, Error>| #[trigger]
                    may_open(entry.archive, entry.end, entry.entry.path, caches, opened) && outcome
                        == match opened {
                        Err(e) => Err(e),
                        Ok(dir) => dir.lookup_component(name),
                    };
                let answer = choose|answer: Option<Vec<GoodbyeItem>>| #[trigger]
                    answer_at(entry.archive, entry.end, entry.entry.path, caches, answer) && opened
                        == directory_with(entry.archive, entry.end, entry.entry.path, answer);
                assert(answer_at(entry.archive, entry.end, entry.entry.path, caches, answer));
                if let Ok(inner) = opened {
                    lemma_found_in_archive(inner, name, 0);
                }
            }
        },
        (ComponentView::Normal(name), None) => {
            lemma_found_in_archive(dir, name, 0);
        },
        _ => {},
    }
}

/// The outcome for some path components.
proof fn lemma_faithful_components(
    dir: DirectoryView,
    caches: Caches,
    components: Seq<ComponentView>,
    first: bool,
    cur: Option<FileView>,
    outcome: Result<Option<FileView>, Error>,
)
    requires
        faithful(dir.archive, caches),
        cur matches Some(file) ==> file.archive == dir.archive,
        dir.may_find_components(caches, components, first, cur, outcome),
    ensures
        outcome == dir.lookup_components(components, first, cur),
    decreases components.len(),
{
    if components.len() > 0 {
        let found = choose|found: Result<Option<FileView>, Error>| #[trigger]
            dir.may_find_first(caches, components[0], first, cur, found) && dir.goes_on(
                caches,
                components,
                found,
                outcome,
            );
        lemma_faithful_first(dir, caches, components[0], first, cur, found);
        if let Ok(next) = found {
            if !(next is None && components[0] is Normal) {
                lemma_faithful_components(dir, caches, components.skip(1), false, next, outcome);
            }
        }
    }
}

/// An outcome for some path components.
proof fn lemma_silent_components(
    dir: DirectoryView,
    caches: Caches,
    components: Seq<ComponentView>,
    first: bool,
    cur: Option<FileView>,
)
    ensures
        dir.may_find_components(
            caches,
            components,
            first,
            cur,
            dir.lookup_components(components, first, cur),
        ),
    decreases components.len(),
{
    if components.len() > 0 {
        let found = dir.lookup_first(components[0], first, cur);
        let outcome = dir.lookup_components(components, first, cur);
        if let (ComponentView::Normal(_), Some(entry)) = (components[0], cur) {
            let opened = directory_at(entry.archive, entry.end, entry.entry.path);
            let answer: Option<Vec<GoodbyeItem>> = None;
            assert(answer_at(entry.archive, entry.end, entry.entry.path, caches, answer));
            assert(may_open(entry.archive, entry.end, entry.entry.path, caches, opened));
        }
        assert(dir.may_find_first(caches, components[0], first, cur, found));
        if let Ok(next) = found {
            if !(next is None && components[0] is Normal) {
                lemma_silent_components(dir, caches, components.skip(1), false, next);
            }
        }
        assert(dir.goes_on(caches, components, found, outcome));
    }
}

} // verus!
