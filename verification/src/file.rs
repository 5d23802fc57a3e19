//! Note files: how they are named, what a fresh one holds, and which of
//! them lie closest to a date.

use vstd::prelude::*;
use vstd::string::*;
use std::path::PathBuf;
use crate::date::{date_text, parse_from_str, parsed_date, Date};
use crate::tasks::{rendered_group, GroupView, TaskGroup};

verus! {

/// A path in the file system. The library never looks inside.
#[verifier::external_type_specification]
#[verifier::external_body]
pub struct ExPathBuf(PathBuf);

/// `Clone::clone` of `PathBuf`: the copy equals the path it was made from.
pub assume_specification[ <PathBuf as Clone>::clone ](path: &PathBuf) -> (copy: PathBuf)
    ensures
        copy == *path,
;

/// Why a path does not name a note file.
#[derive(Debug)]
pub enum FileNameParseError {
    TypeConversionError(&'static str),
    ParseError(chrono::format::ParseError),
}

/// A note file with the date that its name gives.
#[derive(Debug, Clone, PartialEq)]
pub struct File {
    pub file: PathBuf,
    pub date: Date,
}

/// The format of the name of a note file.
pub const FILE_NAME_FORMAT: &'static str = "%Y-%m-%d.md";

/// The name of the note file for a date: the date as `YYYY-MM-DD` and
/// `.md`.
pub open spec fn note_name(date: Date) -> Seq<char> {
    date_text(date) + ".md"@
}

/// The values of a list of groups.
pub open spec fn group_views(groups: Seq<TaskGroup>) -> Seq<GroupView> {
    Seq::new(groups.len(), |i: int| groups[i]@)
}

/// The texts of the groups, each after an empty line.
pub open spec fn rendered_groups(groups: Seq<GroupView>) -> Seq<char>
    decreases groups.len(),
{
    if groups.len() == 0 {
        Seq::empty()
    } else {
        rendered_groups(groups.drop_last()) + "\n"@ + rendered_group(groups.last())
    }
}

/// What a fresh note file holds: the title line for the date, and then
/// each group after an empty line.
pub open spec fn file_content(groups: Seq<GroupView>, date: Date) -> Seq<char> {
    "# Today's tasks "@ + date_text(date) + "\n"@ + rendered_groups(groups)
}

/// The path that `PathBuf::push` makes of a directory and the name of an
/// entry in it.
pub uninterp spec fn pushed_path(directory: PathBuf, name: Seq<char>) -> PathBuf;

/// The last component of a path as text, as `Path::file_name` gives it;
/// nothing for a path without one and for one that is not Unicode.
pub uninterp spec fn last_name(path: PathBuf) -> Option<Seq<char>>;

/// `PathBuf::push`: the path becomes that of the entry `name` in the
/// directory that it was.
#[verifier::external_body]
fn push_name(path: &mut PathBuf, name: &str)
    ensures
        *final(path) == pushed_path(*old(path), name@),
{
    path.push(name);
}

/// `Path::file_name`, as text: the last component of the path, if it has
/// one and that is Unicode.
#[verifier::external_body]
fn last_component(path: &PathBuf) -> (name: Option<String>)
    ensures
        match name {
            Some(text) => last_name(*path) == Some(text@),
            None => last_name(*path) is None,
        },
{
    path.file_name().and_then(|name| name.to_str()).map(|name| name.to_owned())
}

/// The name of the note file for a date.
pub fn file_name(date: &Date) -> (name: String)
    ensures
        name@ == note_name(*date),
{
    let mut name = String::new();
    date.push_to(&mut name);
    name.append(".md");
    assert(name@ =~= note_name(*date));
    name
}

/// The path of the note file for a date: the entry of the data directory
/// with the name [`file_name`] gives.
pub fn get_filepath(data_dir: &PathBuf, date: &Date) -> (path: PathBuf)
    ensures
        path == pushed_path(*data_dir, note_name(*date)),
{
    let name = file_name(date);
    let mut path = data_dir.clone();
    push_name(&mut path, name.as_str());
    path
}

/// The content of a fresh note file for a date with the given groups.
pub fn generate_file_content(data: &Vec<TaskGroup>, date: &Date) -> (content: String)
    ensures
        content@ == file_content(group_views(data@), *date),
{
    let mut content = String::new();
    content.append("# Today's tasks ");
    date.push_to(&mut content);
    content.append("\n");
    let ghost header = content@;
    let mut i: usize = 0;
    proof {
        assert(header =~= "# Today's tasks "@ + date_text(*date) + "\n"@);
        assert(group_views(data@).take(0) =~= Seq::empty());
        assert(content@ =~= header + rendered_groups(group_views(data@).take(0)));
    }
    while i < data.len()
        invariant
            i <= data.len(),
            content@ == header + rendered_groups(group_views(data@).take(i as int)),
        decreases data.len() - i,
    {
        proof {
            assert(group_views(data@).take(i + 1).drop_last() =~= group_views(data@).take(i as int));
            assert(group_views(data@).take(i + 1).last() == data@[i as int]@);
        }
        content.append("\n");
        content.append(data[i].to_string().as_str());
        i += 1;
        assert(content@ =~= header + rendered_groups(group_views(data@).take(i as int)));
    }
    assert(group_views(data@).take(i as int) =~= group_views(data@));
    content
}

/// What reading a file name as a date returned, as a mathematical value.
pub open spec fn name_outcome(result: Result<Date, FileNameParseError>) -> Option<Date> {
    match result {
        Ok(date) => Some(date),
        Err(_) => None,
    }
}

/// The date that the name of a note file gives. A name that chrono does
/// not read by [`FILE_NAME_FORMAT`] gives chrono's error.
pub fn date_of_name(name: &str) -> (result: Result<Date, FileNameParseError>)
    ensures
        name_outcome(result) == parsed_date(name@, FILE_NAME_FORMAT@),
        result matches Ok(date) ==> date.is_valid(),
        result matches Err(error) ==> error is ParseError,
{
    match parse_from_str(name, FILE_NAME_FORMAT) {
        Ok(date) => Ok(date),
        Err(error) => Err(FileNameParseError::ParseError(error)),
    }
}

/// The date that the last component of a path gives as the name of a note
/// file; nothing for a path without a last component that is text.
pub open spec fn date_of_path(path: PathBuf) -> Option<Date> {
    match last_name(path) {
        Some(name) => parsed_date(name, FILE_NAME_FORMAT@),
        None => None,
    }
}

/// The date that the name of the file at `file` gives. A path without a
/// last component that is text is refused as such; a name that chrono does
/// not read as the name of a note file gives chrono's error.
pub fn try_get_date(file: &PathBuf) -> (result: Result<Date, FileNameParseError>)
    ensures
        name_outcome(result) == date_of_path(*file),
        result matches Ok(date) ==> date.is_valid(),
        result matches Err(error) ==> (error is TypeConversionError <==> last_name(*file) is None),
{
    match last_component(file) {
        Some(name) => date_of_name(name.as_str()),
        None => Err(
            FileNameParseError::TypeConversionError("Could not get filename from path: {:?}"),
        ),
    }
}

impl File {
    /// The note file at `path`, if the name of the file gives a date;
    /// otherwise the error of [`try_get_date`].
    pub fn try_from(path: PathBuf) -> (result: Result<File, FileNameParseError>)
        ensures
            match result {
                Ok(dated) => dated.file == path && date_of_path(path) == Some(dated.date)
                    && dated.date.is_valid(),
                Err(error) => date_of_path(path) is None && (error is TypeConversionError <==> last_name(
                    path,
                ) is None),
            },
    {
        match try_get_date(&path) {
            Ok(date) => Ok(File { file: path, date }),
            Err(error) => Err(error),
        }
    }
}

/// Whether `order` tells where each file of `after` stood in `before`, and
/// `after` holds the files of `before` by their distance from `target`,
/// the nearest first, files at the same distance in the order they had.
pub open spec fn sorts_by_distance(before: Seq<File>, after: Seq<File>, target: Date, order: Seq<int>) -> bool {
    &&& order.len() == before.len()
    &&& after.len() == before.len()
    &&& forall|i: int| 0 <= i < order.len() ==> 0 <= #[trigger] order[i] < before.len()
    &&& forall|i: int, j: int| 0 <= i < j < order.len() ==> order[i] != order[j]
    &&& forall|i: int| 0 <= i < after.len() ==> #[trigger] after[i] == before[order[i]]
    &&& forall|i: int, j: int|
        #![trigger after[i], after[j]]
        0 <= i < j < after.len() ==> after[i].date.spec_distance(target) < after[j].date.spec_distance(
            target,
        ) || (after[i].date.spec_distance(target) == after[j].date.spec_distance(target) && order[i]
            < order[j])
}

/// Whether `after` holds the files of `before` by their distance from
/// `target`, the nearest first, files at the same distance in the order
/// they had.
pub open spec fn sorted_by_distance(before: Seq<File>, after: Seq<File>, target: Date) -> bool {
    exists|order: Seq<int>| sorts_by_distance(before, after, target, order)
}

/// Whether every file has a date that exists.
pub open spec fn all_dated(files: Seq<File>) -> bool {
    forall|i: int| 0 <= i < files.len() ==> (#[trigger] files[i]).date.is_valid()
}

/// The note files among the paths: every path whose file name gives a
/// date, with that date, in the order of the paths.
pub open spec fn dated_of(paths: Seq<PathBuf>) -> Seq<File>
    decreases paths.len(),
{
    if paths.len() == 0 {
        Seq::empty()
    } else {
        match date_of_path(paths.last()) {
            Some(date) => dated_of(paths.drop_last()).push(File { file: paths.last(), date }),
            None => dated_of(paths.drop_last()),
        }
    }
}

/// The smaller of two numbers.
pub open spec fn smaller(a: int, b: int) -> int {
    if a <= b {
        a
    } else {
        b
    }
}

/// Whether `nearest` holds the `n` files of `dated` that lie closest to
/// `target`, or all of them if there are fewer: the nearest first, files
/// at the same distance in the order they had.
pub open spec fn nearest_of(dated: Seq<File>, target: Date, n: usize, nearest: Seq<File>) -> bool {
    exists|sorted: Seq<File>|
        #[trigger] sorted_by_distance(dated, sorted, target) && nearest == sorted.take(
            smaller(n as int, dated.len() as int),
        )
}

/// `slice::sort_by_cached_key` with the distance from `target` as the key:
/// the files are put in the order of their keys, and files with the same
/// key keep the order they had.
#[verifier::external_body]
fn sort_by_distance(files: &mut Vec<File>, target: &Date)
    requires
        target.is_valid(),
        all_dated(old(files)@),
    ensures
        sorted_by_distance(old(files)@, final(files)@, *target),
{
    files.sort_by_cached_key(|dated| dated.date.distance(target))
}

impl File {
    /// The `n` files that lie closest to `target`, or all of them if there
    /// are fewer: the nearest first, files at the same distance in the
    /// order in which they were given.
    pub fn closest(dated: Vec<File>, target: &Date, n: usize) -> (nearest: Vec<File>)
        requires
            target.is_valid(),
            all_dated(dated@),
        ensures
            nearest_of(dated@, *target, n, nearest@),
    {
        let mut sorted = dated;
        sort_by_distance(&mut sorted, target);
        let ghost in_order = sorted@;
        let count = if n <= sorted.len() {
            n
        } else {
            sorted.len()
        };
        sorted.truncate(count);
        proof {
            assert(sorted@ =~= in_order.take(smaller(n as int, dated@.len() as int)));
            assert(sorted_by_distance(dated@, in_order, *target));
        }
        sorted
    }

    /// The note files among `files`: the paths whose file name gives a
    /// date, each with that date, in the order in which they were given.
    pub fn dated_files(files: Vec<PathBuf>) -> (dated: Vec<File>)
        ensures
            dated@ == dated_of(files@),
            all_dated(dated@),
    {
        let mut dated: Vec<File> = Vec::new();
        let ghost paths = files@;
        proof {
            assert(paths.take(0) =~= Seq::empty());
        }
        for path in it: files
            invariant
                it.seq() == paths,
                all_dated(dated@),
                dated@ == dated_of(paths.take(it.index() as int)),
        {
            let ghost at = it.index() as int;
            proof {
                assert(paths.take(at + 1).drop_last() =~= paths.take(at));
                assert(paths.take(at + 1).last() == path);
            }
            match File::try_from(path) {
                Ok(file) => {
                    dated.push(file);
                },
                Err(_) => {},
            }
        }
        proof {
            assert(paths.take(paths.len() as int) =~= paths);
        }
        dated
    }

    /// The `n` note files among `files` that lie closest to `target`, the
    /// nearest first, files at the same distance in the order in which
    /// they were given. Paths whose file name gives no date are passed
    /// over.
    pub fn get_closest_files(files: Vec<PathBuf>, target: Date, n: usize) -> (nearest: Vec<File>)
        requires
            target.is_valid(),
        ensures
            nearest_of(dated_of(files@), target, n, nearest@),
    {
        let dated = File::dated_files(files);
        File::closest(dated, &target, n)
    }
}

} // verus!
