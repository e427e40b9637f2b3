//! Messages about what was found.

use vstd::prelude::*;
use vstd::string::*;

use crate::loader::{Par2File, StoredFile};
use crate::packets::FileHash;
use crate::parser;
use crate::paths;
use crate::tables::IdTable;
use crate::text;
use crate::verify;
use crate::verify::VerificationResult;

verus! {

/// How serious a message is.
#[derive(Debug, Clone, Copy, PartialEq, Eq, Structural)]
pub enum MessageLevel {
    Info,
    Warning,
    Error,
}

/// A message.
#[derive(Debug)]
pub struct Message {
    pub level: MessageLevel,
    pub text: String,
}

/// The contents of messages.
pub open spec fn message_views(s: Seq<Message>) -> Seq<(MessageLevel, Seq<char>)> {
    Seq::new(s.len(), |i: int| (s[i].level, s[i].text@))
}

/// One warning for each damaged file.
pub open spec fn damage_warnings(ids: Seq<Seq<u8>>, places: Map<Seq<u8>, String>) -> Seq<
    (MessageLevel, Seq<char>),
>
    decreases ids.len(),
{
    if ids.len() == 0 {
        seq![]
    } else {
        let before = damage_warnings(ids.drop_last(), places);
        if places.dom().contains(ids.last()) {
            before.push((MessageLevel::Warning, "File damaged: "@ + places[ids.last()]@))
        } else {
            before
        }
    }
}

/// One note for each file that was found by its contents: how its name is shown, and the name that
/// it should have.
pub open spec fn rename_notes(
    renamed: Seq<(Seq<char>, Seq<char>)>,
    shown: Seq<Seq<char>>,
) -> Seq<(MessageLevel, Seq<char>)> {
    Seq::new(
        renamed.len(),
        |i: int|
            (
                MessageLevel::Info,
                "Found obfuscated file: "@ + shown[i] + " -> "@ + renamed[i].1,
            ),
    )
}

/// One note for each damaged file whose damage is known block by block.
pub open spec fn block_notes(ids: Seq<Seq<u8>>, par2: Par2File, r: VerificationResult) -> Seq<
    (MessageLevel, Seq<char>),
>
    decreases ids.len(),
{
    if ids.len() == 0 {
        seq![]
    } else {
        let before = block_notes(ids.drop_last(), par2, r);
        let id = ids.last();
        if r.block_damages@.dom().contains(id) && par2.files@.dom().contains(id)
            && par2.slice_checksums@.dom().contains(id) {
            before.push(
                (
                    MessageLevel::Info,
                    par2.files@[id].name@ + ": "@ + text::decimal_digits(
                        r.block_damages@[id].damaged_block_indices@.len(),
                    ) + "/"@ + text::decimal_digits(par2.slice_checksums@[id]@.len())
                        + " blocks damaged"@,
                ),
            )
        } else {
            before
        }
    }
}

/// One error for each file that was not found.
pub open spec fn missing_errors(
    ids: Seq<Seq<u8>>,
    files: Map<Seq<u8>, parser::FileInfo>,
) -> Seq<(MessageLevel, Seq<char>)>
    decreases ids.len(),
{
    if ids.len() == 0 {
        seq![]
    } else {
        let before = missing_errors(ids.drop_last(), files);
        if files.dom().contains(ids.last()) {
            before.push((MessageLevel::Error, "Missing: "@ + files[ids.last()].name@))
        } else {
            before
        }
    }
}

/// The messages about the result of a verification, when the names of files that were found by their
/// contents are shown as `shown`.
pub open spec fn verification_notes(
    par2: Par2File,
    r: VerificationResult,
    shown: Seq<Seq<char>>,
) -> Seq<(MessageLevel, Seq<char>)> {
    damage_warnings(parser::id_views(r.damaged_files@), r.verified_files@) + rename_notes(
        verify::rename_views(r.renamed_files@),
        shown,
    ) + block_notes(parser::id_views(r.damaged_files@), par2, r) + missing_errors(
        parser::id_views(r.missing_files@),
        par2.files@,
    )
}

fn post(messages: &mut Vec<Message>, level: MessageLevel, text: String)
    ensures
        message_views(final(messages)@) == message_views(old(messages)@).push((level, text@)),
{
    messages.push(Message { level, text });
    assert(message_views(messages@) =~= message_views(old(messages)@).push((level, text@)));
}

fn add_warnings(messages: &mut Vec<Message>, ids: &[FileHash], places: &IdTable<String>)
    requires
        places.wf(),
    ensures
        message_views(final(messages)@) == message_views(old(messages)@) + damage_warnings(
            parser::id_views(ids@),
            places@,
        ),
{
    let ghost views = parser::id_views(ids@);
    let ghost start = message_views(messages@);
    let n: usize = ids.len();
    assert(start + damage_warnings(views.take(0), places@) =~= start);
    for i in 0..n
        invariant
            n == ids@.len(),
            views == parser::id_views(ids@),
            places.wf(),
            message_views(messages@) == start + damage_warnings(views.take(i as int), places@),
    {
        proof {
            assert(views.take(i + 1).drop_last() =~= views.take(i as int));
            assert(views.take(i + 1).last() == ids@[i as int]@);
        }
        if let Some(path) = places.get(&ids[i]) {
            let mut text: String = "File damaged: ".to_owned();
            text.append(path.as_str());
            post(messages, MessageLevel::Warning, text);
        }
        assert(message_views(messages@) =~= start + damage_warnings(views.take(i + 1), places@));
    }
    assert(views.take(n as int) =~= views);
}

fn add_block_notes(messages: &mut Vec<Message>, par2: &Par2File, r: &VerificationResult)
    requires
        par2.files.wf(),
        par2.slice_checksums.wf(),
        r.block_damages.wf(),
    ensures
        message_views(final(messages)@) == message_views(old(messages)@) + block_notes(
            parser::id_views(r.damaged_files@),
            *par2,
            *r,
        ),
{
    let ghost views = parser::id_views(r.damaged_files@);
    let ghost start = message_views(messages@);
    let n: usize = r.damaged_files.len();
    assert(start + block_notes(views.take(0), *par2, *r) =~= start);
    for i in 0..n
        invariant
            n == r.damaged_files@.len(),
            views == parser::id_views(r.damaged_files@),
            par2.files.wf(),
            par2.slice_checksums.wf(),
            r.block_damages.wf(),
            message_views(messages@) == start + block_notes(views.take(i as int), *par2, *r),
    {
        let id: FileHash = r.damaged_files[i];
        proof {
            assert(views.take(i + 1).drop_last() =~= views.take(i as int));
            assert(views.take(i + 1).last() == id@);
        }
        if let Some(damage) = r.block_damages.get(&id) {
            if let Some(file) = par2.files.get(&id) {
                if let Some(checksums) = par2.slice_checksums.get(&id) {
                    let mut text: String = file.name.clone();
                    text.append(": ");
                    text.append(
                        text::decimal(damage.damaged_block_indices.len() as u64).as_str(),
                    );
                    text.append("/");
                    text.append(text::decimal(checksums.len() as u64).as_str());
                    text.append(" blocks damaged");
                    post(messages, MessageLevel::Info, text);
                }
            }
        }
        assert(message_views(messages@) =~= start + block_notes(views.take(i + 1), *par2, *r));
    }
    assert(views.take(n as int) =~= views);
}

fn add_missing(
    messages: &mut Vec<Message>,
    ids: &[FileHash],
    files: &IdTable<parser::FileInfo>,
)
    requires
        files.wf(),
    ensures
        message_views(final(messages)@) == message_views(old(messages)@) + missing_errors(
            parser::id_views(ids@),
            files@,
        ),
{
    let ghost views = parser::id_views(ids@);
    let ghost start = message_views(messages@);
    let n: usize = ids.len();
    assert(start + missing_errors(views.take(0), files@) =~= start);
    for i in 0..n
        invariant
            n == ids@.len(),
            views == parser::id_views(ids@),
            files.wf(),
            message_views(messages@) == start + missing_errors(views.take(i as int), files@),
    {
        proof {
            assert(views.take(i + 1).drop_last() =~= views.take(i as int));
            assert(views.take(i + 1).last() == ids@[i as int]@);
        }
        if let Some(file) = files.get(&ids[i]) {
            let mut text: String = "Missing: ".to_owned();
            text.append(file.name.as_str());
            post(messages, MessageLevel::Error, text);
        }
        assert(message_views(messages@) =~= start + missing_errors(views.take(i + 1), files@));
    }
    assert(views.take(n as int) =~= views);
}

/// The messages about the result of a verification, when the names of files that were found by their
/// contents are shown as `shown`.
pub fn verification_messages(par2: &Par2File, r: &VerificationResult, shown: &[String]) -> (messages:
    Vec<Message>)
    requires
        par2.files.wf(),
        par2.slice_checksums.wf(),
        r.verified_files.wf(),
        r.block_damages.wf(),
        shown@.len() == r.renamed_files@.len(),
    ensures
        message_views(messages@) == verification_notes(
            *par2,
            *r,
            Seq::new(shown@.len(), |i: int| shown@[i]@),
        ),
{
    let ghost names = Seq::new(shown@.len(), |i: int| shown@[i]@);
    let mut messages: Vec<Message> = Vec::new();
    assert(message_views(messages@) =~= seq![]);
    add_warnings(&mut messages, r.damaged_files.as_slice(), &r.verified_files);
    let ghost first = message_views(messages@);
    assert(first =~= damage_warnings(parser::id_views(r.damaged_files@), r.verified_files@));
    let n: usize = r.renamed_files.len();
    let ghost notes = rename_notes(verify::rename_views(r.renamed_files@), names);
    assert(first + notes.take(0) =~= first);
    for i in 0..n
        invariant
            n == r.renamed_files@.len(),
            n == shown@.len(),
            names == Seq::new(shown@.len(), |i: int| shown@[i]@),
            notes == rename_notes(verify::rename_views(r.renamed_files@), names),
            message_views(messages@) == first + notes.take(i as int),
    {
        let mut text: String = "Found obfuscated file: ".to_owned();
        text.append(shown[i].as_str());
        text.append(" -> ");
        text.append(r.renamed_files[i].1.as_str());
        assert(notes[i as int] == (MessageLevel::Info, text@));
        post(&mut messages, MessageLevel::Info, text);
        assert(message_views(messages@) =~= first + notes.take(i + 1));
    }
    assert(notes.take(n as int) =~= notes);
    add_block_notes(&mut messages, par2, r);
    add_missing(&mut messages, r.missing_files.as_slice(), &par2.files);
    messages
}

/// Of files that were found by their contents, those with portable paths are shown by the names at the
/// ends of the paths.
pub open spec fn are_shown(shown: Seq<Seq<char>>, renamed: Seq<(Seq<char>, Seq<char>)>) -> bool {
    shown.len() == renamed.len() && forall|i: int|
        0 <= i < shown.len() && paths::is_portable(renamed[i].0) ==> #[trigger] shown[i]
            == shown_name(renamed[i].0)
}

/// The name of a file as it is shown.
pub open spec fn shown_name(path: Seq<char>) -> Seq<char> {
    if paths::has_name(path) {
        paths::file_part(path)
    } else {
        seq![]
    }
}

/// Verify the files of a set, as `verify_files` does, and tell what was found. How a path that is not
/// portable is shown in a message depends on the operating system.
pub fn verify_files_with_messages(
    par2_data: &Par2File,
    named: &IdTable<StoredFile>,
    extra_files: &[StoredFile],
) -> (r: (VerificationResult, Vec<Message>))
    requires
        par2_data.files.wf(),
        par2_data.slice_checksums.wf(),
        named.wf(),
        0 < par2_data.block_size <= usize::MAX,
    ensures
        verify::is_result(r.0, verify::case_of(*par2_data, named@, extra_files@)),
        exists|shown: Seq<Seq<char>>|
            message_views(r.1@) == #[trigger] verification_notes(*par2_data, r.0, shown) && are_shown(
                shown,
                verify::rename_views(r.0.renamed_files@),
            ),
{
    let result = verify::verify_files(par2_data, named, extra_files);
    let n: usize = result.renamed_files.len();
    let mut shown: Vec<String> = Vec::with_capacity(n);
    for i in 0..n
        invariant
            n == result.renamed_files@.len(),
            shown@.len() == i,
            forall|k: int|
                0 <= k < i && paths::is_portable(result.renamed_files@[k].0@) ==> (
                #[trigger] shown@[k])@ == shown_name(result.renamed_files@[k].0@),
    {
        let name: String = match paths::file_name(result.renamed_files[i].0.as_str()) {
            Some(name) => name,
            None => {
                let none: String = String::new();
                assert(none@ =~= seq![]);
                none
            },
        };
        shown.push(name);
    }
    let messages = verification_messages(par2_data, &result, shown.as_slice());
    let ghost names = Seq::new(shown@.len(), |i: int| shown@[i]@);
    let r = (result, messages);
    assert(message_views(r.1@) == verification_notes(*par2_data, r.0, names));
    assert(are_shown(names, verify::rename_views(r.0.renamed_files@))) by {
        assert forall|i: int| 0 <= i < names.len() && paths::is_portable(
            verify::rename_views(r.0.renamed_files@)[i].0,
        ) implies #[trigger] names[i] == shown_name(
            verify::rename_views(r.0.renamed_files@)[i].0,
        ) by {
            assert(names[i] == shown@[i]@);
        }
    }
    assert(exists|shown: Seq<Seq<char>>|
            message_views(r.1@) == #[trigger] verification_notes(*par2_data, r.0, shown) && are_shown(
                shown,
                verify::rename_views(r.0.renamed_files@),
            ));
    r
}

proof fn lemma_warned(ids: Seq<Seq<u8>>, places: Map<Seq<u8>, String>, id: Seq<u8>)
    requires
        ids.contains(id),
        places.dom().contains(id),
    ensures
        damage_warnings(ids, places).contains(
            (MessageLevel::Warning, "File damaged: "@ + places[id]@),
        ),
    decreases ids.len(),
{
    let list = damage_warnings(ids, places);
    let before = damage_warnings(ids.drop_last(), places);
    let note = (MessageLevel::Warning, "File damaged: "@ + places[id]@);
    if ids.last() == id {
        assert(list[before.len() as int] == note);
    } else {
        let k = choose|k: int| 0 <= k < ids.len() && ids[k] == id;
        assert(ids.drop_last()[k] == id);
        lemma_warned(ids.drop_last(), places, id);
        let p = choose|p: int| 0 <= p < before.len() && before[p] == note;
        assert(list[p] == note);
    }
}

proof fn lemma_missed(ids: Seq<Seq<u8>>, files: Map<Seq<u8>, parser::FileInfo>, id: Seq<u8>)
    requires
        ids.contains(id),
        files.dom().contains(id),
    ensures
        missing_errors(ids, files).contains((MessageLevel::Error, "Missing: "@ + files[id].name@)),
    decreases ids.len(),
{
    let list = missing_errors(ids, files);
    let before = missing_errors(ids.drop_last(), files);
    let note = (MessageLevel::Error, "Missing: "@ + files[id].name@);
    if ids.last() == id {
        assert(list[before.len() as int] == note);
    } else {
        let k = choose|k: int| 0 <= k < ids.len() && ids[k] == id;
        assert(ids.drop_last()[k] == id);
        lemma_missed(ids.drop_last(), files, id);
        let p = choose|p: int| 0 <= p < before.len() && before[p] == note;
        assert(list[p] == note);
    }
}

/// The note on a file whose damage is known block by block.
pub open spec fn damage_note(par2: Par2File, r: VerificationResult, id: Seq<u8>) -> (
    MessageLevel,
    Seq<char>,
) {
    (
        MessageLevel::Info,
        par2.files@[id].name@ + ": "@ + text::decimal_digits(
            r.block_damages@[id].damaged_block_indices@.len(),
        ) + "/"@ + text::decimal_digits(par2.slice_checksums@[id]@.len()) + " blocks damaged"@,
    )
}

proof fn lemma_noted(ids: Seq<Seq<u8>>, par2: Par2File, r: VerificationResult, id: Seq<u8>)
    requires
        ids.contains(id),
        r.block_damages@.dom().contains(id),
        par2.files@.dom().contains(id),
        par2.slice_checksums@.dom().contains(id),
    ensures
        block_notes(ids, par2, r).contains(damage_note(par2, r, id)),
    decreases ids.len(),
{
    let list = block_notes(ids, par2, r);
    let before = block_notes(ids.drop_last(), par2, r);
    let note = damage_note(par2, r, id);
    if ids.last() == id {
        assert(list[before.len() as int] == note);
    } else {
        let k = choose|k: int| 0 <= k < ids.len() && ids[k] == id;
        assert(ids.drop_last()[k] == id);
        lemma_noted(ids.drop_last(), par2, r, id);
        let p = choose|p: int| 0 <= p < before.len() && before[p] == note;
        assert(list[p] == note);
    }
}

proof fn lemma_somewhere(
    a: Seq<(MessageLevel, Seq<char>)>,
    b: Seq<(MessageLevel, Seq<char>)>,
    c: Seq<(MessageLevel, Seq<char>)>,
    d: Seq<(MessageLevel, Seq<char>)>,
    note: (MessageLevel, Seq<char>),
)
    requires
        a.contains(note) || b.contains(note) || c.contains(note) || d.contains(note),
    ensures
        (a + b + c + d).contains(note),
{
    let all = a + b + c + d;
    if a.contains(note) {
        let k = choose|k: int| 0 <= k < a.len() && a[k] == note;
        assert(all[k] == note);
    } else if b.contains(note) {
        let k = choose|k: int| 0 <= k < b.len() && b[k] == note;
        assert(all[a.len() + k] == note);
    } else if c.contains(note) {
        let k = choose|k: int| 0 <= k < c.len() && c[k] == note;
        assert(all[a.len() + b.len() + k] == note);
    } else {
        let k = choose|k: int| 0 <= k < d.len() && d[k] == note;
        assert(all[a.len() + b.len() + c.len() + k] == note);
    }
}

/// Messages tell of every damaged file and where it is, of every damaged file how many of its blocks are
/// damaged, of every file that is missing, and of every file that was found under another name.
pub proof fn law_messages_tell_what_was_found(
    par2: Par2File,
    r: VerificationResult,
    shown: Seq<Seq<char>>,
    id: Seq<u8>,
    i: int,
)
    ensures
        ({
            let notes = verification_notes(par2, r, shown);
            let damaged = parser::id_views(r.damaged_files@);
            let missing = parser::id_views(r.missing_files@);
            &&& damaged.contains(id) && r.verified_files@.dom().contains(id) ==> notes.contains(
                (MessageLevel::Warning, "File damaged: "@ + r.verified_files@[id]@),
            )
            &&& damaged.contains(id) && r.block_damages@.dom().contains(id)
                && par2.files@.dom().contains(id) && par2.slice_checksums@.dom().contains(id)
                ==> notes.contains(damage_note(par2, r, id))
            &&& missing.contains(id) && par2.files@.dom().contains(id) ==> notes.contains(
                (MessageLevel::Error, "Missing: "@ + par2.files@[id].name@),
            )
            &&& 0 <= i < r.renamed_files@.len() ==> notes.contains(
                (
                    MessageLevel::Info,
                    "Found obfuscated file: "@ + shown[i] + " -> "@ + r.renamed_files@[i].1@,
                ),
            )
        }),
{
    let damaged = parser::id_views(r.damaged_files@);
    let missing = parser::id_views(r.missing_files@);
    let renamed = verify::rename_views(r.renamed_files@);
    let a = damage_warnings(damaged, r.verified_files@);
    let b = rename_notes(renamed, shown);
    let c = block_notes(damaged, par2, r);
    let d = missing_errors(missing, par2.files@);
    if damaged.contains(id) && r.verified_files@.dom().contains(id) {
        lemma_warned(damaged, r.verified_files@, id);
        lemma_somewhere(
            a,
            b,
            c,
            d,
            (MessageLevel::Warning, "File damaged: "@ + r.verified_files@[id]@),
        );
    }
    if damaged.contains(id) && r.block_damages@.dom().contains(id) && par2.files@.dom().contains(id)
        && par2.slice_checksums@.dom().contains(id) {
        lemma_noted(damaged, par2, r, id);
        lemma_somewhere(a, b, c, d, damage_note(par2, r, id));
    }
    if missing.contains(id) && par2.files@.dom().contains(id) {
        lemma_missed(missing, par2.files@, id);
        lemma_somewhere(
            a,
            b,
            c,
            d,
            (MessageLevel::Error, "Missing: "@ + par2.files@[id].name@),
        );
    }
    if 0 <= i < r.renamed_files@.len() {
        let note = (
            MessageLevel::Info,
            "Found obfuscated file: "@ + shown[i] + " -> "@ + r.renamed_files@[i].1@,
        );
        assert(b[i] == note);
        lemma_somewhere(a, b, c, d, note);
    }
}

/// A file that was found by its contents is shown by the name at the end of its path, if the path is
/// portable.
pub proof fn law_found_files_are_shown_by_their_names(
    shown: Seq<Seq<char>>,
    renamed: Seq<(Seq<char>, Seq<char>)>,
    i: int,
)
    requires
        are_shown(shown, renamed),
        0 <= i < renamed.len(),
        paths::is_portable(renamed[i].0),
        paths::has_name(renamed[i].0),
    ensures
        shown.len() == renamed.len(),
        shown[i] == paths::file_part(renamed[i].0),
{
    assert(shown[i] == shown_name(renamed[i].0));
}

} // verus!
