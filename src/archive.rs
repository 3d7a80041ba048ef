//! Zip archives: every member that is a FASTA file is a stream of its own.

use std::io::Read;
use vstd::prelude::*;
use vstd::slice::slice_to_vec;
use vstd::string::StrSliceExecFns;
use crate::formats::{bytes_of, is_error, ErrorKind, StreamError};
use crate::parser::{describes, process_reader};
use crate::stats::AnalysisResults;

verus! {

#[verifier::external_type_specification]
#[verifier::external_body]
#[verifier::reject_recursive_types(T)]
pub struct ExCursor<T>(std::io::Cursor<T>);

#[verifier::external_type_specification]
#[verifier::external_body]
#[verifier::reject_recursive_types(R)]
pub struct ExZipArchive<R>(zip::ZipArchive<R>);

/// A member as the archive lists it: its kind (file or not) and name, or
/// `None` where its entry cannot be read; and its uncompressed bytes, or
/// `None` where they cannot be read.
pub type MemberView = (Option<(bool, Seq<char>)>, Option<Seq<u8>>);

/// The members of an opened archive, in index order.
pub uninterp spec fn zip_members(archive: zip::ZipArchive<std::io::Cursor<Vec<u8>>>) -> Seq<MemberView>;

/// The members of the archive held in `data`, or `None` where it cannot be
/// opened.
pub uninterp spec fn zip_listing(data: Seq<u8>) -> Option<Seq<MemberView>>;

/// Relies on zip::ZipArchive::new: reads the central directory of the
/// archive held in `data`.
#[verifier::external_body]
fn zip_open(data: Vec<u8>) -> (r: Option<zip::ZipArchive<std::io::Cursor<Vec<u8>>>>)
    ensures
        match r {
            Some(a) => zip_listing(data@) == Some(zip_members(a)),
            None => zip_listing(data@) is None,
        },
{
    zip::ZipArchive::new(std::io::Cursor::new(data)).ok()
}

/// Relies on zip::ZipArchive::len: the number of members.
#[verifier::external_body]
fn zip_len(archive: &zip::ZipArchive<std::io::Cursor<Vec<u8>>>) -> (r: usize)
    ensures
        r == zip_members(*archive).len(),
{
    archive.len()
}

/// Relies on zip::ZipArchive::by_index, ZipFile::is_file and ZipFile::name:
/// the kind and name of member `index`.
#[verifier::external_body]
fn zip_entry(archive: &mut zip::ZipArchive<std::io::Cursor<Vec<u8>>>, index: usize) -> (r: Option<(bool, String)>)
    requires
        index < zip_members(*old(archive)).len(),
    ensures
        zip_members(*final(archive)) == zip_members(*old(archive)),
        match r {
            Some(e) => zip_members(*old(archive))[index as int].0 == Some((e.0, e.1@)),
            None => zip_members(*old(archive))[index as int].0 is None,
        },
{
    let file = archive.by_index(index).ok()?;
    let name = file.name().ok()?.into_owned();
    Some((file.is_file(), name))
}

/// Relies on zip::ZipArchive::by_index and reading the member to its end:
/// the uncompressed bytes of member `index`.
#[verifier::external_body]
fn zip_contents(archive: &mut zip::ZipArchive<std::io::Cursor<Vec<u8>>>, index: usize) -> (r: Option<Vec<u8>>)
    requires
        index < zip_members(*old(archive)).len(),
    ensures
        zip_members(*final(archive)) == zip_members(*old(archive)),
        bytes_of(r) == zip_members(*old(archive))[index as int].1,
{
    let mut file = archive.by_index(index).ok()?;
    let mut out = Vec::new();
    file.read_to_end(&mut out).ok()?;
    Some(out)
}

/// What follows the last '/' of `s`; all of `s` where it has none.
pub open spec fn last_component(s: Seq<char>) -> Seq<char>
    decreases s.len(),
{
    if s.len() == 0 {
        s
    } else if s.last() == '/' {
        Seq::empty()
    } else {
        last_component(s.drop_last()).push(s.last())
    }
}

/// The chars of `s` from `i` on are what follows its last '/'.
proof fn lemma_last_component(s: Seq<char>, i: int)
    requires
        0 <= i <= s.len(),
        i == 0 || s[i - 1] == '/',
        forall|k: int| i <= k < s.len() ==> s[k] != '/',
    ensures
        last_component(s) == s.subrange(i, s.len() as int),
    decreases s.len(),
{
    if s.len() == i {
        if i > 0 {
            assert(s.last() == s[i - 1]);
        }
        assert(s.subrange(i, s.len() as int) =~= Seq::<char>::empty());
    } else {
        lemma_last_component(s.drop_last(), i);
        assert(s.subrange(i, s.len() as int) =~= s.drop_last().subrange(i, s.len() - 1).push(
            s.last(),
        ));
    }
}

/// What follows the last '/' of `name`.
fn after_last_slash(name: &str) -> (r: String)
    ensures
        r@ == last_component(name@),
{
    let n = name.unicode_len();
    let mut i = n;
    while i > 0 && name.get_char(i - 1) != '/'
        invariant
            i <= n == name@.len(),
            forall|k: int| i <= k < n ==> name@[k] != '/',
        decreases i,
    {
        i = i - 1;
    }
    proof {
        lemma_last_component(name@, i as int);
    }
    name.substring_char(i, n).to_owned()
}

/// Whether `suffix` ends `s`.
fn str_ends_with(s: &str, suffix: &str) -> (r: bool)
    ensures
        r == ends_with(s@, suffix@),
{
    let n = s.unicode_len();
    let m = suffix.unicode_len();
    if m > n {
        return false;
    }
    let mut i: usize = 0;
    while i < m
        invariant
            m <= n == s@.len(),
            m == suffix@.len(),
            i <= m,
            forall|k: int| 0 <= k < i ==> s@[n - m + k] == suffix@[k],
        decreases m - i,
    {
        if s.get_char(n - m + i) != suffix.get_char(i) {
            assert(s@.subrange(n - m, n as int)[i as int] != suffix@[i as int]);
            return false;
        }
        i = i + 1;
    }
    assert(s@.subrange(n - m, n as int) =~= suffix@);
    true
}

pub open spec fn ends_with(s: Seq<char>, suffix: Seq<char>) -> bool {
    suffix.len() <= s.len() && s.subrange(s.len() - suffix.len(), s.len() as int) == suffix
}

/// Names of FASTA members end in "fa", "fasta" or "fna".
pub open spec fn has_fasta_suffix(name: Seq<char>) -> bool {
    ||| ends_with(name, seq!['f', 'a'])
    ||| ends_with(name, seq!['f', 'a', 's', 't', 'a'])
    ||| ends_with(name, seq!['f', 'n', 'a'])
}

/// Whether a member named `name` is a FASTA file.
pub fn is_fasta_name(name: &str) -> (r: bool)
    ensures
        r == has_fasta_suffix(name@),
{
    proof {
        reveal_strlit("fa");
        reveal_strlit("fasta");
        reveal_strlit("fna");
    }
    let fa = str_ends_with(name, "fa");
    let fasta = str_ends_with(name, "fasta");
    let fna = str_ends_with(name, "fna");
    assert("fa"@ =~= seq!['f', 'a']);
    assert("fasta"@ =~= seq!['f', 'a', 's', 't', 'a']);
    assert("fna"@ =~= seq!['f', 'n', 'a']);
    fa || fasta || fna
}

/// A member whose statistics are owed: a file with a FASTA name.
pub open spec fn member_selected(m: MemberView) -> bool {
    &&& m.0 is Some
    &&& (m.0->0).0
    &&& has_fasta_suffix((m.0->0).1)
}

/// Label and bytes (where readable) of each selected member, in archive order.
pub open spec fn selected_members(ms: Seq<MemberView>) -> Seq<(Seq<char>, Option<Seq<u8>>)>
    decreases ms.len(),
{
    if ms.len() == 0 {
        Seq::empty()
    } else {
        let rest = selected_members(ms.drop_last());
        let m = ms.last();
        if member_selected(m) {
            rest.push((last_component((m.0->0).1), m.1))
        } else {
            rest
        }
    }
}

/// Every entry of the listing can be read.
pub open spec fn entries_readable(ms: Seq<MemberView>) -> bool {
    forall|i: int| 0 <= i < ms.len() ==> (#[trigger] ms[i]).0 is Some
}

/// The outcome for one member labelled `label`: its statistics, or a
/// corruption error where its bytes cannot be read.
pub open spec fn member_outcome(r: Result<AnalysisResults, StreamError>, label: Seq<char>, bytes: Option<Seq<u8>>) -> bool {
    match bytes {
        Some(b) => r is Ok && r->Ok_0.filename@ == label && describes(r->Ok_0, b),
        None => r is Err && r->Err_0.stream@ == label && r->Err_0.kind == ErrorKind::Corrupt,
    }
}

/// `v` holds one outcome for each of the streams `sel`, in order.
pub open spec fn results_of_members(v: Seq<Result<AnalysisResults, StreamError>>, sel: Seq<(Seq<char>, Option<Seq<u8>>)>) -> bool {
    &&& v.len() == sel.len()
    &&& forall|j: int| 0 <= j < v.len() ==> member_outcome(#[trigger] v[j], sel[j].0, sel[j].1)
}

/// The outcome for a zip archive whose listing is `listing`.
pub open spec fn zip_outcome(r: Vec<Result<AnalysisResults, StreamError>>, name: Seq<char>, listing: Option<Seq<MemberView>>) -> bool {
    match listing {
        Some(ms) if entries_readable(ms) => results_of_members(r@, selected_members(ms)),
        _ => is_error(r, name, ErrorKind::Corrupt),
    }
}

/// Statistics of each FASTA member of a zip archive, one outcome per
/// member. An archive that cannot be opened, or with an entry that cannot be
/// read, gives a single corruption error; a FASTA member whose bytes cannot
/// be read gives a corruption error of its own.
pub fn process_zip_file(filename: &str, data: &[u8], no_simd: bool) -> (r: Vec<Result<AnalysisResults, StreamError>>)
    ensures
        zip_outcome(r, filename@, zip_listing(data@)),
{
    let mut archive = match zip_open(slice_to_vec(data)) {
        Some(a) => a,
        None => {
            let mut v = Vec::new();
            v.push(Err(StreamError::new(filename, ErrorKind::Corrupt)));
            return v;
        },
    };
    let ghost ms = zip_members(archive);
    let n = zip_len(&archive);
    let mut out: Vec<Result<AnalysisResults, StreamError>> = Vec::new();
    let mut i: usize = 0;
    while i < n
        invariant
            i <= n == ms.len(),
            zip_members(archive) == ms,
            zip_listing(data@) == Some(ms),
            forall|j: int| 0 <= j < i ==> (#[trigger] ms[j]).0 is Some,
            results_of_members(out@, selected_members(ms.subrange(0, i as int))),
        decreases n - i,
    {
        let ghost prefix = ms.subrange(0, i + 1);
        assert(prefix.drop_last() =~= ms.subrange(0, i as int));
        assert(prefix.last() == ms[i as int]);
        let entry = zip_entry(&mut archive, i);
        let (is_file, name) = match entry {
            Some(e) => e,
            None => {
                assert(!entries_readable(ms));
                let mut v = Vec::new();
                v.push(Err(StreamError::new(filename, ErrorKind::Corrupt)));
                return v;
            },
        };
        if is_file && is_fasta_name(name.as_str()) {
            let label = after_last_slash(name.as_str());
            let outcome = match zip_contents(&mut archive, i) {
                Some(bytes) => {
                    let mut results = AnalysisResults::new(label.as_str());
                    process_reader(bytes.as_slice(), no_simd, &mut results);
                    Ok(results)
                },
                None => Err(StreamError::new(label.as_str(), ErrorKind::Corrupt)),
            };
            let ghost before = out@;
            out.push(outcome);
            assert(out@ =~= before.push(outcome));
        }
        i = i + 1;
    }
    assert(ms.subrange(0, i as int) =~= ms);
    out
}

} // verus!
