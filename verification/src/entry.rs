//! Entries of a review: diffs and notices, and the choices that lead to them.

use crate::diff::{
    diff_file, diff_result, is_review, is_review_pair, is_source_of, is_too_long, DiffError,
    MAX_REVISION_LINES,
};
use crate::frontend::FrontendError;
use crate::presentation::PresentedFile;
use crate::source::Source;
use crate::syntax::SyntaxPair;
use crate::text::same_str;
use std::path::Path;
use vstd::prelude::*;
use vstd::string::*;
use vstd::utf8::*;

verus! {

/// Why a changed file is named without its changes.
#[derive(Clone, Debug, PartialEq, Eq)]
pub enum FileNotice {
    TooLarge {
        path: String,
        before_bytes: Option<u64>,
        after_bytes: Option<u64>,
        limit_bytes: u64,
    },
    TooManyLines {
        path: String,
        before_lines: Option<usize>,
        after_lines: Option<usize>,
        limit_lines: usize,
    },
}

/// One file of a review.
#[derive(Clone, Debug, PartialEq, Eq)]
pub enum ReviewEntry {
    Diff(PresentedFile),
    Notice(FileNotice),
}

/// Path of an entry.
pub open spec fn entry_path(entry: ReviewEntry) -> Seq<char> {
    match entry {
        ReviewEntry::Diff(file) => file.path@,
        ReviewEntry::Notice(FileNotice::TooLarge { path, .. }) => path@,
        ReviewEntry::Notice(FileNotice::TooManyLines { path, .. }) => path@,
    }
}

/// The entry shows a generated file.
pub open spec fn entry_generated(entry: ReviewEntry) -> bool {
    entry matches ReviewEntry::Diff(file) && file.generated
}

impl ReviewEntry {
    pub fn path(&self) -> (path: &str)
        ensures
            path@ == entry_path(*self),
    {
        match self {
            ReviewEntry::Diff(file) => file.path.as_str(),
            ReviewEntry::Notice(FileNotice::TooLarge { path, .. }) => path.as_str(),
            ReviewEntry::Notice(FileNotice::TooManyLines { path, .. }) => path.as_str(),
        }
    }

    pub fn is_generated(&self) -> (result: bool)
        ensures
            result == entry_generated(*self),
    {
        match self {
            ReviewEntry::Diff(file) => file.generated,
            ReviewEntry::Notice(_) => false,
        }
    }
}

/// The size, if there is one, lies above the limit.
pub open spec fn exceeds(bytes: Option<u64>, limit: u64) -> bool {
    bytes matches Some(bytes) && bytes > limit
}

/// The least limit that lets a file pass is its size; a file that does not exist passes any.
pub proof fn law_size_is_the_least_limit(bytes: u64, limit: u64)
    ensures
        exceeds(Some(bytes), limit) <==> limit < bytes,
        !exceeds(None, limit),
{
}

/// A file that is too large in either revision is named with both sizes.
pub fn size_notice(path: &str, before: Option<u64>, after: Option<u64>, limit: u64) -> (notice: Option<
    FileNotice,
>)
    ensures
        notice is None <==> !exceeds(before, limit) && !exceeds(after, limit),
        notice matches Some(notice) ==> (notice matches FileNotice::TooLarge {
            path: named,
            before_bytes,
            after_bytes,
            limit_bytes,
        } && named@ == path@ && before_bytes == before && after_bytes == after && limit_bytes
            == limit),
{
    let before_large = match before {
        Some(bytes) => bytes > limit,
        None => false,
    };
    let after_large = match after {
        Some(bytes) => bytes > limit,
        None => false,
    };
    if !before_large && !after_large {
        return None;
    }
    Some(
        FileNotice::TooLarge {
            path: path.to_owned(),
            before_bytes: before,
            after_bytes: after,
            limit_bytes: limit,
        },
    )
}

/// Text of a revision; an absent revision is empty.
pub open spec fn revision_text(text: Option<&str>) -> Seq<char> {
    match text {
        Some(text) => text@,
        None => Seq::empty(),
    }
}

/// The revision fits memory limits.
pub open spec fn revision_fits(text: Option<&str>) -> bool {
    text matches Some(text) ==> encode_utf8(text@).len() + 1 < usize::MAX
}

fn revision(text: Option<&str>) -> (revision: &str)
    requires
        revision_fits(text),
    ensures
        revision@ == revision_text(text),
        encode_utf8(revision@).len() + 1 < usize::MAX,
{
    match text {
        Some(text) => text,
        None => {
            proof {
                reveal_strlit("");
                assert(""@ =~= Seq::<char>::empty());
                reveal_with_fuel(encode_utf8, 2);
            }
            ""
        },
    }
}

/// Lines of a revision, if it exists.
pub open spec fn revision_lines(text: Option<&str>, source: Source) -> Option<usize> {
    match text {
        Some(_) => Some(source.line_seq().len() as usize),
        None => None,
    }
}

/// Count the lines of a revision.
fn line_count(text: Option<&str>, Ghost(source): Ghost<Source>) -> (count: Option<usize>)
    requires
        revision_fits(text),
        is_source_of(source, revision_text(text)),
    ensures
        count == revision_lines(text, source),
{
    match text {
        Some(text) => {
            let counted = Source::new(text);
            proof {
                counted.lemma_same_lines(&source);
            }
            Some(counted.line_count())
        },
        None => None,
    }
}

/// What a review of two revisions answers, given their sources.
///
/// Equal texts need no entry. Where one text has too many lines, a notice tells the counts.
/// Otherwise the review is that of the two texts, or the setup of its parser failed.
pub open spec fn review_result(
    path: Seq<char>,
    before: Option<&str>,
    after: Option<&str>,
    old_source: Source,
    new_source: Source,
    entry: Result<Option<ReviewEntry>, DiffError>,
) -> bool {
    if revision_text(before) == revision_text(after) {
        entry == Ok::<Option<ReviewEntry>, DiffError>(None)
    } else if is_too_long(old_source) || is_too_long(new_source) {
        entry matches Ok(Some(ReviewEntry::Notice(FileNotice::TooManyLines {
            path: named,
            before_lines,
            after_lines,
            limit_lines,
        }))) && named@ == path && before_lines == revision_lines(before, old_source) && after_lines
            == revision_lines(after, new_source) && limit_lines == MAX_REVISION_LINES
    } else {
        match entry {
            Ok(Some(ReviewEntry::Diff(file))) => is_review(file, path, old_source, new_source),
            Err(DiffError::Frontend(error)) => is_review_pair(
                path,
                old_source,
                new_source,
                Err::<SyntaxPair, FrontendError>(error),
            ),
            _ => false,
        }
    }
}

/// Review two revisions of a file, of which one may be absent.
pub fn review_source_pair(path: &str, before: Option<&str>, after: Option<&str>) -> (entry: Result<
    Option<ReviewEntry>,
    DiffError,
>)
    requires
        revision_fits(before),
        revision_fits(after),
    ensures
        exists|old_source: Source, new_source: Source|
            #![trigger is_source_of(old_source, revision_text(before)), is_source_of(new_source, revision_text(after))]
            is_source_of(old_source, revision_text(before)) && is_source_of(
                new_source,
                revision_text(after),
            ) && review_result(path@, before, after, old_source, new_source, entry),
{
    let old_text = revision(before);
    let new_text = revision(after);
    let result = diff_file(path, old_text, new_text);
    let ghost (old_source, new_source) = choose|old_source: Source, new_source: Source|
        #![trigger is_source_of(old_source, old_text@), is_source_of(new_source, new_text@)]
        is_source_of(old_source, old_text@) && is_source_of(new_source, new_text@) && diff_result(
            path@,
            old_source,
            new_source,
            result,
        );
    assert(is_source_of(old_source, revision_text(before)) && is_source_of(
        new_source,
        revision_text(after),
    ));
    if same_str(old_text, new_text) {
        return Ok(None);
    }
    match result {
        Ok(file) => Ok(Some(ReviewEntry::Diff(file))),
        Err(DiffError::TooManyLines) => {
            let notice = FileNotice::TooManyLines {
                path: path.to_owned(),
                before_lines: line_count(before, Ghost(old_source)),
                after_lines: line_count(after, Ghost(new_source)),
                limit_lines: MAX_REVISION_LINES,
            };
            Ok(Some(ReviewEntry::Notice(notice)))
        },
        Err(error) => Err(error),
    }
}

/// Lexicographic order of byte strings.
pub open spec fn bytes_less(left: Seq<u8>, right: Seq<u8>) -> bool
    decreases left.len(),
{
    if right.len() == 0 {
        false
    } else if left.len() == 0 {
        true
    } else if left[0] != right[0] {
        left[0] < right[0]
    } else {
        bytes_less(left.skip(1), right.skip(1))
    }
}

/// The order is transitive, and compares any two strings that differ.
pub proof fn law_byte_order_is_total(first: Seq<u8>, second: Seq<u8>, third: Seq<u8>)
    ensures
        !bytes_less(first, first),
        bytes_less(first, second) ==> !bytes_less(second, first),
        bytes_less(first, second) && bytes_less(second, third) ==> bytes_less(first, third),
        !bytes_less(first, second) && !bytes_less(second, first) ==> first == second,
    decreases first.len(),
{
    if first.len() > 0 {
        law_byte_order_is_total(first.skip(1), second.skip(1), third.skip(1));
        if second.len() > 0 && first[0] == second[0] && first.skip(1) == second.skip(1) {
            assert(first =~= seq![first[0]] + first.skip(1));
            assert(second =~= seq![second[0]] + second.skip(1));
        }
    } else {
        assert(first =~= Seq::<u8>::empty());
        if second.len() == 0 {
            assert(second =~= Seq::<u8>::empty());
        }
    }
}

/// The first byte in which two strings differ decides, however long they are; where there is none,
/// the shorter string comes first.
pub proof fn law_first_difference_decides(left: Seq<u8>, right: Seq<u8>, at: int)
    requires
        0 <= at <= left.len(),
        at <= right.len(),
        left.take(at) == right.take(at),
    ensures
        at < left.len() && at < right.len() && left[at] < right[at] ==> bytes_less(left, right)
            && !bytes_less(right, left),
        at == left.len() && at < right.len() ==> bytes_less(left, right) && !bytes_less(right, left),
        at == left.len() && at == right.len() ==> !bytes_less(left, right) && !bytes_less(
            right,
            left,
        ),
    decreases at,
{
    if at > 0 {
        assert(left.take(at)[0] == left[0]);
        assert(right.take(at)[0] == right[0]);
        assert(left.skip(1).take(at - 1) =~= left.take(at).skip(1));
        assert(right.skip(1).take(at - 1) =~= right.take(at).skip(1));
        law_first_difference_decides(left.skip(1), right.skip(1), at - 1);
    }
}

/// In an ordered list no generated file comes before a hand-written one. Of two files of the same
/// kind whose paths agree up to some byte and then differ, the one with the lesser byte comes
/// first; and a path comes before the paths that go on from it.
pub proof fn law_reviews_are_listed_by_path(entries: Seq<ReviewEntry>, i: int, j: int, at: int)
    requires
        entries_ascend(entries),
        0 <= i < j < entries.len(),
        0 <= at,
    ensures
        entry_generated(entries[i]) ==> entry_generated(entries[j]),
        ({
            let left = encode_utf8(entry_path(entries[i]));
            let right = encode_utf8(entry_path(entries[j]));
            entry_generated(entries[i]) == entry_generated(entries[j]) && at <= left.len() && at
                <= right.len() && left.take(at) == right.take(at) ==> (at < left.len() && at
                < right.len() ==> left[at] <= right[at]) && (at == right.len() ==> left.len()
                == right.len())
        }),
{
    let left = encode_utf8(entry_path(entries[i]));
    let right = encode_utf8(entry_path(entries[j]));
    assert(!entry_less(entries[j], entries[i]));
    if at <= left.len() && at <= right.len() && left.take(at) == right.take(at) {
        law_first_difference_decides(right, left, at);
    }
}

/// Whether one byte string comes before another.
fn precedes(left: &[u8], right: &[u8]) -> (result: bool)
    ensures
        result == bytes_less(left@, right@),
{
    let mut index: usize = 0;
    proof {
        assert(left@.skip(0) =~= left@);
        assert(right@.skip(0) =~= right@);
    }
    while index < left.len() && index < right.len()
        invariant
            index <= left@.len(),
            index <= right@.len(),
            bytes_less(left@, right@) == bytes_less(
                left@.skip(index as int),
                right@.skip(index as int),
            ),
        decreases left@.len() - index,
    {
        proof {
            let rest = left@.skip(index as int);
            let other = right@.skip(index as int);
            assert(rest[0] == left@[index as int]);
            assert(other[0] == right@[index as int]);
            assert(rest.skip(1) =~= left@.skip(index + 1));
            assert(other.skip(1) =~= right@.skip(index + 1));
        }
        if left[index] != right[index] {
            return left[index] < right[index];
        }
        index += 1;
    }
    index < right.len()
}

/// Hand-written files before generated ones, then by path.
pub open spec fn entry_less(left: ReviewEntry, right: ReviewEntry) -> bool {
    if entry_generated(left) != entry_generated(right) {
        entry_generated(right)
    } else {
        bytes_less(encode_utf8(entry_path(left)), encode_utf8(entry_path(right)))
    }
}

/// No entry comes before an earlier one.
pub open spec fn entries_ascend(entries: Seq<ReviewEntry>) -> bool {
    forall|i: int, j: int|
        0 <= i < j < entries.len() ==> !entry_less(#[trigger] entries[j], #[trigger] entries[i])
}

fn entry_precedes(left: &ReviewEntry, right: &ReviewEntry) -> (result: bool)
    ensures
        result == entry_less(*left, *right),
{
    if left.is_generated() != right.is_generated() {
        return right.is_generated();
    }
    precedes(left.path().as_bytes(), right.path().as_bytes())
}

/// The order of entries is transitive.
proof fn lemma_entry_order(first: ReviewEntry, second: ReviewEntry, third: ReviewEntry)
    requires
        !entry_less(second, first),
        !entry_less(third, second),
    ensures
        !entry_less(third, first),
{
    let left = encode_utf8(entry_path(first));
    let middle = encode_utf8(entry_path(second));
    let right = encode_utf8(entry_path(third));
    law_byte_order_is_total(right, left, middle);
    law_byte_order_is_total(middle, right, left);
    law_byte_order_is_total(left, middle, right);
    law_byte_order_is_total(middle, left, right);
    law_byte_order_is_total(right, middle, left);
    law_byte_order_is_total(left, right, middle);
}

/// Put generated files last and order the others by path.
pub fn order_reviews(entries: Vec<ReviewEntry>) -> (ordered: Vec<ReviewEntry>)
    ensures
        ordered@.to_multiset() == entries@.to_multiset(),
        entries_ascend(ordered@),
{
    let ghost whole = entries@;
    let mut pending = entries;
    let mut ordered: Vec<ReviewEntry> = Vec::new();
    proof {
        assert(ordered@ =~= Seq::<ReviewEntry>::empty());
        lemma_no_entries();
        assert(ordered@.to_multiset().add(whole.to_multiset()) =~= whole.to_multiset());
    }
    while pending.len() > 0
        invariant
            entries_ascend(ordered@),
            ordered@.to_multiset().add(pending@.to_multiset()) == whole.to_multiset(),
        decreases pending@.len(),
    {
        let ghost earlier = pending@;
        let ghost before = ordered@;
        let entry = pending.pop().unwrap();
        let mut at: usize = 0;
        while at < ordered.len() && entry_precedes(&ordered[at], &entry)
            invariant
                at <= ordered@.len(),
                ordered@ == before,
                forall|k: int| 0 <= k < at ==> entry_less(#[trigger] ordered@[k], entry),
            decreases ordered@.len() - at,
        {
            at += 1;
        }
        proof {
            if at < ordered@.len() {
                assert forall|k: int| at <= k < ordered@.len() implies !entry_less(
                    #[trigger] ordered@[k],
                    entry,
                ) by {
                    if k > at {
                        assert(!entry_less(ordered@[k], ordered@[at as int]));
                        lemma_entry_order(entry, ordered@[at as int], ordered@[k]);
                    }
                }
            }
        }
        ordered.insert(at, entry);
        proof {
            assert(earlier =~= pending@.push(entry));
            pending@.to_multiset_ensures();
            assert(earlier.to_multiset() =~= pending@.to_multiset().insert(entry));
            assert(ordered@ =~= before.insert(at as int, entry));
            vstd::seq_lib::to_multiset_insert(before, at as int, entry);
            assert(ordered@.to_multiset() =~= before.to_multiset().insert(entry));
            assert(ordered@.to_multiset().add(pending@.to_multiset())
                =~= before.to_multiset().add(earlier.to_multiset()));
            assert forall|i: int, j: int| 0 <= i < j < ordered@.len() implies !entry_less(
                #[trigger] ordered@[j],
                #[trigger] ordered@[i],
            ) by {
                let left = if i < at { i } else { i - 1 };
                let right = if j < at { j } else { j - 1 };
                if i == at {
                    assert(ordered@[j] == before[right]);
                } else if j == at {
                    assert(ordered@[i] == before[left]);
                    assert(entry_less(before[left], entry));
                    law_byte_order_is_total(
                        encode_utf8(entry_path(before[left])),
                        encode_utf8(entry_path(entry)),
                        encode_utf8(entry_path(entry)),
                    );
                } else {
                    assert(ordered@[i] == before[left]);
                    assert(ordered@[j] == before[right]);
                }
            }
        }
    }
    proof {
        assert(pending@ =~= Seq::<ReviewEntry>::empty());
        lemma_no_entries();
        assert(ordered@.to_multiset() =~= whole.to_multiset());
    }
    ordered
}

proof fn lemma_no_entries()
    ensures
        Seq::<ReviewEntry>::empty().to_multiset()
            == vstd::multiset::Multiset::<ReviewEntry>::empty(),
{
    broadcast use vstd::multiset::group_multiset_properties;

    Seq::<ReviewEntry>::empty().to_multiset_ensures();
    assert(Seq::<ReviewEntry>::empty().to_multiset().len() == 0);
}

/// Kind of a change between two trees.
#[derive(Clone, Copy, Debug, PartialEq, Eq, Structural)]
pub enum TreeChange {
    Addition { is_blob: bool },
    Deletion { is_blob: bool },
    Modification { was_blob: bool, is_blob: bool },
    Rewrite,
}

/// What to do with a change between two trees.
#[derive(Clone, Copy, Debug, PartialEq, Eq, Structural)]
pub enum ChangePlan {
    /// Rename detection is off, so a rewrite cannot happen.
    Unexpected,
    /// Only regular files are reviewed.
    Skip,
    Review { has_before: bool, has_after: bool },
}

/// Regular files are reviewed with the revisions that exist.
pub fn plan_change(change: TreeChange) -> (plan: ChangePlan)
    ensures
        plan == match change {
            TreeChange::Rewrite => ChangePlan::Unexpected,
            TreeChange::Addition { is_blob } => if is_blob {
                ChangePlan::Review { has_before: false, has_after: true }
            } else {
                ChangePlan::Skip
            },
            TreeChange::Deletion { is_blob } => if is_blob {
                ChangePlan::Review { has_before: true, has_after: false }
            } else {
                ChangePlan::Skip
            },
            TreeChange::Modification { was_blob, is_blob } => if was_blob && is_blob {
                ChangePlan::Review { has_before: true, has_after: true }
            } else {
                ChangePlan::Skip
            },
        },
{
    match change {
        TreeChange::Rewrite => ChangePlan::Unexpected,
        TreeChange::Addition { is_blob: true } => ChangePlan::Review {
            has_before: false,
            has_after: true,
        },
        TreeChange::Deletion { is_blob: true } => ChangePlan::Review {
            has_before: true,
            has_after: false,
        },
        TreeChange::Modification { was_blob: true, is_blob: true } => ChangePlan::Review {
            has_before: true,
            has_after: true,
        },
        _ => ChangePlan::Skip,
    }
}

/// What the arguments of the program ask for.
#[derive(Clone, Copy, Debug, PartialEq, Eq, Structural)]
pub enum Request {
    /// A current file without a previous one.
    Incomplete,
    Worktree,
    Commit,
    FilePair,
}

/// No argument reviews the working tree, one a commit, and two a pair of files.
pub fn select_request(has_first: bool, has_second: bool) -> (request: Request)
    ensures
        request == match (has_first, has_second) {
            (false, true) => Request::Incomplete,
            (false, false) => Request::Worktree,
            (true, false) => Request::Commit,
            (true, true) => Request::FilePair,
        },
{
    match (has_first, has_second) {
        (false, true) => Request::Incomplete,
        (false, false) => Request::Worktree,
        (true, false) => Request::Commit,
        (true, true) => Request::FilePair,
    }
}

/// Whether contents hold a zero byte, as binary files do.
pub fn is_binary(contents: &[u8]) -> (result: bool)
    ensures
        result == contents@.contains(0u8),
{
    let mut index: usize = 0;
    while index < contents.len()
        invariant
            index <= contents@.len(),
            forall|k: int| 0 <= k < index ==> contents@[k] != 0,
        decreases contents@.len() - index,
    {
        if contents[index] == 0 {
            assert(contents@[index as int] == 0u8);
            return true;
        }
        index += 1;
    }
    false
}

/// Last component of a path, if that is a name.
pub uninterp spec fn file_name_of(path: Seq<char>) -> Option<Seq<char>>;

/// Calls `std::path::Path::file_name`, which gives the last component of a path unless that is a
/// root or a parent reference. Only that the answer depends on the path alone is claimed.
#[verifier::external_body]
fn file_name(path: &str) -> (name: Option<String>)
    ensures
        (match name {
            Some(name) => Some(name@),
            None => None,
        }) == file_name_of(path@),
{
    Path::new(path).file_name().and_then(|name| name.to_str()).map(|name| name.to_owned())
}

/// Use a shared filename to hide temporary directories in difftool labels.
pub fn display_pair_path(before: &str, after: &str) -> (path: String)
    ensures
        path@ == pair_label(file_name_of(before@), file_name_of(after@), after@),
{
    label_pair(file_name(before), file_name(after), after)
}

/// A name that both files share, or the whole current path.
pub open spec fn pair_label(
    before: Option<Seq<char>>,
    after: Option<Seq<char>>,
    path: Seq<char>,
) -> Seq<char> {
    match after {
        Some(name) => if before == after {
            name
        } else {
            path
        },
        None => path,
    }
}

/// Files of one name are labelled by it; any others by the path of the current one.
pub proof fn law_label_is_a_shared_name(before: Seq<char>, after: Seq<char>, path: Seq<char>)
    ensures
        pair_label(Some(after), Some(after), path) == after,
        before != after ==> pair_label(Some(before), Some(after), path) == path,
        pair_label(None, Some(after), path) == path,
        pair_label(Some(before), None, path) == path,
        pair_label(None, None, path) == path,
{
}

/// Label of two files from their names and the path of the current one.
pub fn label_pair(before: Option<String>, after: Option<String>, path: &str) -> (label: String)
    ensures
        label@ == pair_label(
            match before {
                Some(name) => Some(name@),
                None => None,
            },
            match after {
                Some(name) => Some(name@),
                None => None,
            },
            path@,
        ),
{
    match (before, after) {
        (Some(left), Some(right)) => if same_str(left.as_str(), right.as_str()) {
            right
        } else {
            path.to_owned()
        },
        _ => path.to_owned(),
    }
}

} // verus!
