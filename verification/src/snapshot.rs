//! The snapshot document: a header, the diagram of the project tree, and the
//! contents of every file, in the order of the list of files.

use crate::path::{
    components, extension, extension_of, path_behind, path_components, relative_text,
};
use crate::tree::{built_tree, generate_project_tree, tree_text};
use vstd::prelude::*;
use vstd::string::StringExecFns;

verus! {

/// What reading a file gave.
#[derive(Clone, Debug)]
pub enum FileContent {
    /// The text of the file.
    Text(String),
    /// The file could not be read as text; the description says why.
    Unreadable(String),
}

/// A file of the project with what reading it gave.
#[derive(Clone, Debug)]
pub struct FileRecord {
    pub path: String,
    pub content: FileContent,
}

/// What a run produces.
#[derive(Clone, Debug)]
pub enum Snapshot {
    /// The scan kept no file. There is no document.
    NoFiles,
    /// The document.
    Document(String),
}

/// The decimal digit for a number below ten.
pub open spec fn digit(d: nat) -> char {
    if d == 0 {
        '0'
    } else if d == 1 {
        '1'
    } else if d == 2 {
        '2'
    } else if d == 3 {
        '3'
    } else if d == 4 {
        '4'
    } else if d == 5 {
        '5'
    } else if d == 6 {
        '6'
    } else if d == 7 {
        '7'
    } else if d == 8 {
        '8'
    } else {
        '9'
    }
}

/// A number in decimal, without leading zeros.
pub open spec fn decimal(n: nat) -> Seq<char>
    decreases n,
{
    if n < 10 {
        seq![digit(n)]
    } else {
        decimal(n / 10).push(digit(n % 10))
    }
}

/// The head of the document: the title with the project's name, the sentence
/// that says what the document is, and the number of files.
pub open spec fn header(project_name: Seq<char>, files: nat) -> Seq<char> {
    "# Project Snapshot: "@ + project_name + "\n\n"@
        + "This file contains a snapshot of the project structure and source code, formatted for AI consumption.\n"@
        + "Total files included: "@ + decimal(files) + "\n\n"@
}

/// What stands in the block of a file: its text, or the report that it could
/// not be read.
pub open spec fn block_body(content: FileContent) -> Seq<char> {
    match content {
        FileContent::Text(text) => text@,
        FileContent::Unreadable(why) => "Error reading file: "@ + why@,
    }
}

/// The block of one file: a fence annotated with the file's extension and,
/// behind a colon, its path as seen from the root; the body; the closing
/// fence and an empty line.
pub open spec fn file_block(base: Seq<char>, record: FileRecord) -> Seq<char> {
    "```"@ + extension(record.path@) + ":"@ + relative_text(base, record.path@) + "\n"@
        + block_body(record.content) + "\n```\n\n"@
}

/// The blocks of the files, in the order of the list.
pub open spec fn file_blocks(base: Seq<char>, records: Seq<FileRecord>) -> Seq<char>
    decreases records.len(),
{
    if records.len() == 0 {
        Seq::<char>::empty()
    } else {
        file_blocks(base, records.drop_last()) + file_block(base, records.last())
    }
}

/// The paths of the files, in the order of the list.
pub open spec fn paths_of(records: Seq<FileRecord>) -> Seq<Seq<char>> {
    Seq::new(records.len(), |i: int| records[i].path@)
}

/// The document: the head, the diagram of the tree in a fenced block, the
/// heading of the contents, and the blocks of the files.
pub open spec fn snapshot_text(
    project_name: Seq<char>,
    base: Seq<char>,
    records: Seq<FileRecord>,
) -> Seq<char> {
    header(project_name, records.len()) + "```\n"@ + tree_text(
        built_tree(base, paths_of(records)),
    ) + "\n```\n\n"@ + "## File Contents\n\n"@ + file_blocks(base, records)
}

/// The text of a digit.
fn digit_text(d: usize) -> (text: &'static str)
    requires
        d < 10,
    ensures
        text@ == seq![digit(d as nat)],
{
    proof {
        reveal_strlit("0");
        reveal_strlit("1");
        reveal_strlit("2");
        reveal_strlit("3");
        reveal_strlit("4");
        reveal_strlit("5");
        reveal_strlit("6");
        reveal_strlit("7");
        reveal_strlit("8");
        reveal_strlit("9");
    }
    let text = if d == 0 {
        "0"
    } else if d == 1 {
        "1"
    } else if d == 2 {
        "2"
    } else if d == 3 {
        "3"
    } else if d == 4 {
        "4"
    } else if d == 5 {
        "5"
    } else if d == 6 {
        "6"
    } else if d == 7 {
        "7"
    } else if d == 8 {
        "8"
    } else {
        "9"
    };
    assert(text@ =~= seq![digit(d as nat)]);
    text
}

/// Writes a number in decimal.
pub fn decimal_text(n: usize) -> (text: String)
    ensures
        text@ == decimal(n as nat),
    decreases n,
{
    if n < 10 {
        String::from_str(digit_text(n))
    } else {
        let mut text = decimal_text(n / 10);
        text.append(digit_text(n % 10));
        assert(text@ =~= decimal((n / 10) as nat).push(digit((n % 10) as nat)));
        text
    }
}

/// Appends the block of one file. `front` holds the components of the root.
fn append_block(text: &mut String, front: &Vec<String>, base: Ghost<Seq<char>>, record: &FileRecord)
    requires
        front.deep_view() == components(base@),
    ensures
        final(text)@ == old(text)@ + file_block(base@, *record),
{
    let ghost before = text@;
    let language = extension_of(record.path.as_str());
    let shown = path_behind(front, record.path.as_str());
    text.append("```");
    text.append(language.as_str());
    text.append(":");
    text.append(shown.as_str());
    text.append("\n");
    match &record.content {
        FileContent::Text(body) => {
            text.append(body.as_str());
        },
        FileContent::Unreadable(why) => {
            text.append("Error reading file: ");
            text.append(why.as_str());
        },
    }
    text.append("\n```\n\n");
    assert(text@ =~= before + file_block(base@, *record));
}

/// Writes the document for the files `files` of the project at `base_path`.
/// A file that could not be read keeps its place: its block reports the
/// failure, and the blocks of the other files stand as they are.
pub fn generate_snapshot_content(project_name: &str, base_path: &str, files: &[FileRecord]) -> (text:
    String)
    ensures
        text@ == snapshot_text(project_name@, base_path@, files@),
{
    let ghost records = files@;
    let mut paths: Vec<String> = Vec::new();
    let mut i: usize = 0;
    while i < files.len()
        invariant
            i <= files.len(),
            records == files@,
            paths.len() == i,
            forall|j: int| 0 <= j < i ==> paths[j]@ == records[j].path@,
        decreases files.len() - i,
    {
        paths.push(files[i].path.clone());
        i += 1;
    }
    assert(paths.deep_view() =~= paths_of(records));
    let diagram = generate_project_tree(base_path, paths.as_slice());

    let mut text = String::from_str("# Project Snapshot: ");
    text.append(project_name);
    text.append("\n\n");
    text.append(
        "This file contains a snapshot of the project structure and source code, formatted for AI consumption.\n",
    );
    text.append("Total files included: ");
    text.append(decimal_text(files.len()).as_str());
    text.append("\n\n");
    assert(text@ =~= header(project_name@, records.len()));
    text.append("```\n");
    text.append(diagram.as_str());
    text.append("\n```\n\n");
    text.append("## File Contents\n\n");
    let ghost head = text@;

    let front = path_components(base_path);
    let mut k: usize = 0;
    assert(records.take(0) =~= Seq::<FileRecord>::empty());
    assert(text@ =~= head + file_blocks(base_path@, records.take(0)));
    while k < files.len()
        invariant
            k <= files.len(),
            records == files@,
            front.deep_view() == components(base_path@),
            text@ == head + file_blocks(base_path@, records.take(k as int)),
        decreases files.len() - k,
    {
        let ghost before = text@;
        append_block(&mut text, &front, Ghost(base_path@), &files[k]);
        proof {
            assert(records.take(k + 1).drop_last() =~= records.take(k as int));
            assert(records.take(k + 1).last() == records[k as int]);
            assert(text@ =~= head + file_blocks(base_path@, records.take(k + 1)));
        }
        k += 1;
    }
    assert(records.take(files.len() as int) =~= records);
    assert(text@ =~= snapshot_text(project_name@, base_path@, records));
    text
}

/// What a run produces from the files that the scan kept: nothing where it
/// kept none, else the document.
pub fn snapshot(project_name: &str, base_path: &str, files: &[FileRecord]) -> (outcome: Snapshot)
    ensures
        outcome is NoFiles <==> files@.len() == 0,
        outcome matches Snapshot::Document(text) ==> text@ == snapshot_text(
            project_name@,
            base_path@,
            files@,
        ),
{
    if files.len() == 0 {
        Snapshot::NoFiles
    } else {
        Snapshot::Document(generate_snapshot_content(project_name, base_path, files))
    }
}

/// The blocks of two lists of files, one behind the other, are the blocks of
/// the joined list.
pub proof fn lemma_blocks_of_joined_lists(
    base: Seq<char>,
    front: Seq<FileRecord>,
    back: Seq<FileRecord>,
)
    ensures
        file_blocks(base, front + back) == file_blocks(base, front) + file_blocks(base, back),
    decreases back.len(),
{
    if back.len() == 0 {
        assert(front + back =~= front);
        assert(file_blocks(base, front) + file_blocks(base, back) =~= file_blocks(base, front));
    } else {
        lemma_blocks_of_joined_lists(base, front, back.drop_last());
        assert((front + back).drop_last() =~= front + back.drop_last());
        assert((front + back).last() == back.last());
        assert(file_blocks(base, front + back) =~= file_blocks(base, front) + file_blocks(
            base,
            back,
        ));
    }
}

/// Every file has its block, whatever reading it or any other file gave: the
/// block of the file at `at` stands between the blocks of the files before it
/// and the blocks of the files after it, and those do not depend on it.
pub proof fn lemma_every_file_keeps_its_place(base: Seq<char>, records: Seq<FileRecord>, at: int)
    requires
        0 <= at < records.len(),
    ensures
        file_blocks(base, records) == file_blocks(base, records.take(at)) + file_block(
            base,
            records[at],
        ) + file_blocks(base, records.skip(at + 1)),
{
    let upto = records.take(at + 1);
    assert(records =~= upto + records.skip(at + 1));
    lemma_blocks_of_joined_lists(base, upto, records.skip(at + 1));
    assert(upto.drop_last() =~= records.take(at));
    assert(upto.last() == records[at]);
}

/// The block of a file that could not be read reports the failure in its
/// body, and is otherwise the block of any file.
pub proof fn lemma_failure_is_reported(base: Seq<char>, record: FileRecord)
    requires
        record.content is Unreadable,
    ensures
        file_block(base, record) == "```"@ + extension(record.path@) + ":"@ + relative_text(
            base,
            record.path@,
        ) + "\n"@ + ("Error reading file: "@ + record.content->Unreadable_0@) + "\n```\n\n"@,
{
}

} // verus!
