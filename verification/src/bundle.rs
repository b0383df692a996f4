//! Bundle archives: how they are named, what goes into them and how long
//! they can be retrieved.

use crate::resolver::Pick;
use crate::text::{decimal_text, push_decimal};
use crate::version::lemma_decimal_text_value;
use vstd::prelude::*;
use vstd::string::StringExecFns;

verus! {

/// How long an archive can be retrieved, in milliseconds: two minutes.
pub const RETENTION_MILLIS: u128 = 120000;

/// The file name of the archive for a collection, made when the clock
/// showed `created` milliseconds.
pub open spec fn archive_name_text(collection_name: Seq<char>, created: nat) -> Seq<char> {
    collection_name + "-"@ + decimal_text(created) + ".zip"@
}

/// The path under which the same archive is retrieved.
pub open spec fn retrieval_path_text(collection_name: Seq<char>, created: nat) -> Seq<char> {
    "/temp-download-all/"@ + archive_name_text(collection_name, created)
}

/// Archives of one collection that are made at different milliseconds have
/// different names, and are retrieved under different paths.
pub proof fn lemma_archive_names_differ(collection_name: Seq<char>, first: nat, second: nat)
    requires
        first != second,
    ensures
        archive_name_text(collection_name, first) != archive_name_text(collection_name, second),
        retrieval_path_text(collection_name, first) != retrieval_path_text(
            collection_name,
            second,
        ),
{
    let a = archive_name_text(collection_name, first);
    let b = archive_name_text(collection_name, second);
    let head = collection_name + "-"@;
    let root = "/temp-download-all/"@;
    lemma_decimal_text_value(first);
    lemma_decimal_text_value(second);
    if a == b {
        let digits = a.len() - head.len() - ".zip"@.len();
        assert(a.subrange(head.len() as int, head.len() + digits) =~= decimal_text(first));
        assert(b.subrange(head.len() as int, head.len() + digits) =~= decimal_text(second));
    }
    if root + a == root + b {
        assert((root + a).subrange(root.len() as int, (root + a).len() as int) =~= a);
        assert((root + b).subrange(root.len() as int, (root + b).len() as int) =~= b);
    }
}

/// The file name of the archive for a collection: the collection's name, a
/// hyphen, the time of creation in milliseconds and the extension.
pub fn archive_name(collection_name: &str, created: u128) -> (r: String)
    ensures
        r@ == archive_name_text(collection_name@, created as nat),
{
    let mut out = String::new();
    out.append(collection_name);
    out.append("-");
    push_decimal(&mut out, created);
    out.append(".zip");
    assert(out@ =~= archive_name_text(collection_name@, created as nat));
    out
}

/// The path under which the archive is retrieved.
pub fn retrieval_path(collection_name: &str, created: u128) -> (r: String)
    ensures
        r@ == retrieval_path_text(collection_name@, created as nat),
{
    let mut out = String::new();
    out.append("/temp-download-all/");
    out.append(collection_name);
    out.append("-");
    push_decimal(&mut out, created);
    out.append(".zip");
    assert(out@ =~= retrieval_path_text(collection_name@, created as nat));
    out
}

/// Whether an archive made at `created` can no longer be retrieved at
/// `now`: the retention window has passed. Both are in milliseconds on one
/// clock.
pub fn is_expired(created: u128, now: u128) -> (r: bool)
    ensures
        r == (now - created >= RETENTION_MILLIS),
{
    now >= created && now - created >= RETENTION_MILLIS
}

/// One file of an archive: the name of its entry and where its bytes come
/// from.
#[derive(Debug, Clone)]
pub struct ArchiveEntry {
    pub name: String,
    pub url: String,
}

/// Whether `entries` lists one entry for each pick, in the order of the
/// picks, named by the picked file's name.
pub open spec fn entries_of(entries: Seq<ArchiveEntry>, picks: Seq<Pick>) -> bool {
    &&& entries.len() == picks.len()
    &&& forall|i: int|
        0 <= i < picks.len() ==> (#[trigger] entries[i]).name@ == picks[i].filename@
            && entries[i].url@ == picks[i].url@
}

/// The entries of the archive for a list of picks: one for each pick, in
/// the order of the picks, under the picked file's own name.
pub fn archive_entries(picks: &Vec<Pick>) -> (r: Vec<ArchiveEntry>)
    ensures
        entries_of(r@, picks@),
{
    let mut out: Vec<ArchiveEntry> = Vec::with_capacity(picks.len());
    let mut i: usize = 0;
    while i < picks.len()
        invariant
            i <= picks@.len(),
            entries_of(out@, picks@.subrange(0, i as int)),
        decreases picks@.len() - i,
    {
        let entry = ArchiveEntry { name: picks[i].filename.clone(), url: picks[i].url.clone() };
        out.push(entry);
        i = i + 1;
        assert forall|k: int| 0 <= k < i implies (#[trigger] out@[k]).name@ == picks@.subrange(
            0,
            i as int,
        )[k].filename@ && out@[k].url@ == picks@.subrange(0, i as int)[k].url@ by {
            if k < i - 1 {
                assert(picks@.subrange(0, i - 1)[k] == picks@[k]);
            }
        }
    }
    assert(picks@.subrange(0, i as int) =~= picks@);
    out
}

} // verus!
