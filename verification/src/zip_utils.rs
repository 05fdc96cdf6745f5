//! The archive repacker: rebuilds an archive member by member, rewriting the
//! one file it is asked to rewrite and copying every other file in its stored
//! form.

use crate::archive::{
    action_for, copied, dir_name, ends_in_slash, has_target, is_dir_name, is_handed_over,
    is_plain_path, is_replaced, keeps_plain_paths, lookup, packed_tree, repacked, repacked_entry,
    repacking_without_target_copies, unpacked, Entry, ExtractedView, Member, MemberAction,
    Stored, TreeEntryView,
};
use crate::DocxError;
use std::io::Read;
use std::io::Write;
use vstd::prelude::*;
use vstd::string::StringSliceAdditionalSpecFns;
use zip::result::ZipError;

verus! {

/// `zip::ZipArchive`, the reader of an archive. Verus sees nothing inside it.
#[verifier::external_type_specification]
#[verifier::external_body]
#[verifier::reject_recursive_types(R)]
pub struct ExZipArchive<R>(zip::ZipArchive<R>);

/// `std::io::Cursor`, through which an archive is read from memory. Verus
/// sees nothing inside it.
#[verifier::external_type_specification]
#[verifier::external_body]
#[verifier::reject_recursive_types(T)]
pub struct ExCursor<T>(std::io::Cursor<T>);

/// `zip::result::ZipError`, what the archive reader and writer report. Verus
/// sees nothing inside it.
#[verifier::external_type_specification]
#[verifier::external_body]
pub struct ExZipError(ZipError);

/// A `zip::ZipWriter` that writes an archive into memory. Verus sees nothing
/// inside it; `written` names the entries it holds.
#[verifier::external_body]
pub struct ArchiveWriter {
    inner: zip::ZipWriter<std::io::Cursor<Vec<u8>>>,
}

/// The members that `ZipArchive::new` finds in `bytes`, in the order of the
/// central directory, or `None` where it refuses `bytes` as an archive.
pub uninterp spec fn listing(bytes: Seq<u8>) -> Option<Seq<Member>>;

/// The members of an open archive, by index. Of the member at an index,
/// `name` is what `ZipFile::name` returns and `content` what reading the file
/// to its end yields; `stored` holds what `ZipFile::compression`, `crc32`,
/// `compressed_size`, `size`, `last_modified` and `unix_mode` return and the
/// bytes that lie in the archive for it; `keyless` says that
/// `by_index_decrypt` with an empty password does not come back with the
/// password refused; `opens` says that `by_index` hands out a file for it,
/// and `reads` that reading that file to its end succeeds. The archive lies in
/// memory, so all of these depend on its bytes alone.
pub uninterp spec fn members(archive: zip::ZipArchive<std::io::Cursor<&[u8]>>) -> Seq<Member>;

/// The entries that a writer holds, in the order in which they were added.
pub uninterp spec fn written(writer: ArchiveWriter) -> Seq<Entry>;

/// What `ZipWriter::finish` returns for a writer that holds `entries`: the
/// bytes of the archive, or `None` where it fails. An entry is added with the
/// default options or copied in its stored form; the default options take
/// nothing from the clock, since the `zip` crate is built without its `time`
/// feature, and the writer writes into memory, so the outcome depends on the
/// entries alone.
pub uninterp spec fn finished(entries: Seq<Entry>) -> Option<Seq<u8>>;

/// Whether `ZipWriter::add_directory`, with the default options, succeeds for
/// `name` on a writer that holds `held`.
pub uninterp spec fn directory_fits(held: Seq<Entry>, name: Seq<char>) -> bool;

/// Whether `ZipWriter::start_file`, with the default options, succeeds for
/// `name` on a writer that holds `held`.
pub uninterp spec fn file_fits(held: Seq<Entry>, name: Seq<char>) -> bool;

/// Whether `Write::write_all` succeeds for `content` on a writer that holds
/// `held` and has just started the last of these entries as a file.
pub uninterp spec fn content_fits(held: Seq<Entry>, content: Seq<u8>) -> bool;

/// Whether `ZipWriter::raw_copy_file` succeeds on a writer that holds `held`,
/// for a member of this name and stored form.
pub uninterp spec fn copy_fits(held: Seq<Entry>, name: Seq<char>, stored: Stored) -> bool;


/// The name of a member and whether it is a file.
pub struct MemberHeader {
    pub name: String,
    pub is_file: bool,
}

/// `ZipArchive::new` on a cursor over `bytes`. The contract names the members
/// of the archive that comes back, and says that `bytes` has no listing where
/// an error comes back.
#[verifier::external_body]
fn open_archive<'a>(bytes: &'a [u8]) -> (opened: Result<
    zip::ZipArchive<std::io::Cursor<&'a [u8]>>,
    ZipError,
>)
    ensures
        match opened {
            Ok(archive) => listing(bytes@) == Some(members(archive)),
            Err(_) => listing(bytes@) is None,
        },
{
    zip::ZipArchive::new(std::io::Cursor::new(bytes))
}

/// `ZipArchive::len`: the number of members.
#[verifier::external_body]
fn member_count(archive: &zip::ZipArchive<std::io::Cursor<&[u8]>>) -> (count: usize)
    ensures
        count == members(*archive).len(),
{
    archive.len()
}

/// `ZipArchive::by_index_decrypt` with an empty password, asked only whether
/// the password is refused. `by_index` unwraps that answer and would panic on
/// a refusal, which an entry that carries an AES header without being marked
/// as encrypted brings about; so every member is put to this question before
/// `by_index` opens it.
#[verifier::external_body]
fn asks_for_password(
    archive: &mut zip::ZipArchive<std::io::Cursor<&[u8]>>,
    index: usize,
) -> (asks: bool)
    requires
        index < members(*old(archive)).len(),
    ensures
        members(*final(archive)) == members(*old(archive)),
        asks == !members(*old(archive))[index as int].keyless,
{
    matches!(archive.by_index_decrypt(index, &[]), Ok(Err(_)))
}

/// `ZipError::UnsupportedArchive` with the text `ZipError::PASSWORD_REQUIRED`:
/// the error that `by_index` gives for an encrypted member. Nothing is
/// claimed of the value.
#[verifier::external_body]
fn password_required() -> ZipError {
    ZipError::UnsupportedArchive(ZipError::PASSWORD_REQUIRED)
}

/// `ZipArchive::by_index`, then `ZipFile::name` and `ZipFile::is_file` on the
/// member it opens. A member is a file unless its name ends in a slash or a
/// backslash. The call fails where `by_index` does, and only there.
#[verifier::external_body]
fn member_header(
    archive: &mut zip::ZipArchive<std::io::Cursor<&[u8]>>,
    index: usize,
) -> (header: Result<MemberHeader, ZipError>)
    requires
        index < members(*old(archive)).len(),
        members(*old(archive))[index as int].keyless,
    ensures
        members(*final(archive)) == members(*old(archive)),
        header is Ok <==> members(*old(archive))[index as int].opens,
        header matches Ok(h) ==> {
            &&& h.name@ == members(*old(archive))[index as int].name
            &&& h.is_file == !is_dir_name(h.name@)
        },
{
    let file = archive.by_index(index)?;
    Ok(MemberHeader { name: file.name().to_owned(), is_file: file.is_file() })
}

/// `ZipArchive::by_index`, then `Read::read_to_end` on the member it opens:
/// the member's content, unpacked and checked against its checksum. The call
/// succeeds where the member opens and reads, and only there; both are named,
/// not stated.
#[verifier::external_body]
fn read_member(
    archive: &mut zip::ZipArchive<std::io::Cursor<&[u8]>>,
    index: usize,
) -> (content: Result<Vec<u8>, ZipError>)
    requires
        index < members(*old(archive)).len(),
        members(*old(archive))[index as int].keyless,
    ensures
        members(*final(archive)) == members(*old(archive)),
        content is Ok <==> members(*old(archive))[index as int].opens && members(
            *old(archive),
        )[index as int].reads,
        content matches Ok(bytes) ==> bytes@ == members(*old(archive))[index as int].content,
{
    let mut file = archive.by_index(index)?;
    let mut bytes = Vec::new();
    file.read_to_end(&mut bytes)?;
    Ok(bytes)
}

/// `ZipArchive::by_index`, then `ZipFile::enclosed_name` on the member it
/// opens: whether the member's name is a path that stays below the directory
/// it is joined to. The reader refuses a name that holds a NUL, that begins
/// with a root or a prefix such as a drive, or that steps out of the
/// directory with `..`. What counts as a root or a prefix depends on the
/// platform, so the contract says only that a name which is a safe relative
/// path on every platform is accepted. The call fails where `by_index` does,
/// and only there.
#[verifier::external_body]
fn member_is_enclosed(
    archive: &mut zip::ZipArchive<std::io::Cursor<&[u8]>>,
    index: usize,
) -> (enclosed: Result<bool, ZipError>)
    requires
        index < members(*old(archive)).len(),
        members(*old(archive))[index as int].keyless,
    ensures
        members(*final(archive)) == members(*old(archive)),
        enclosed is Ok <==> members(*old(archive))[index as int].opens,
        enclosed matches Ok(flag) ==> (is_plain_path(members(*old(archive))[index as int].name)
            ==> flag),
{
    Ok(archive.by_index(index)?.enclosed_name().is_some())
}

/// `ZipArchive::by_name_decrypt` with an empty password, asked only whether
/// the password is refused, as `asks_for_password` asks by index. The archive
/// finds a name at the index of the last member that bears it.
#[verifier::external_body]
fn named_asks_for_password(
    archive: &mut zip::ZipArchive<std::io::Cursor<&[u8]>>,
    name: &str,
) -> (asks: bool)
    ensures
        members(*final(archive)) == members(*old(archive)),
        asks <==> (lookup(members(*old(archive)), name@) matches Some(i) && !members(
            *old(archive),
        )[i].keyless),
{
    matches!(archive.by_name_decrypt(name, &[]), Ok(Err(_)))
}

/// `ZipArchive::by_name`, then `Read::read_to_end` on the member it opens: the
/// content of the last member that bears the name. The call succeeds where
/// a member bears the name, opens and reads, and only there.
#[verifier::external_body]
fn read_named(
    archive: &mut zip::ZipArchive<std::io::Cursor<&[u8]>>,
    name: &str,
) -> (content: Result<Vec<u8>, ZipError>)
    requires
        lookup(members(*old(archive)), name@) matches Some(i) ==> members(*old(archive))[i].keyless,
    ensures
        members(*final(archive)) == members(*old(archive)),
        content is Ok <==> (lookup(members(*old(archive)), name@) matches Some(i) && members(
            *old(archive),
        )[i].opens && members(*old(archive))[i].reads),
        content matches Ok(bytes) ==> lookup(members(*old(archive)), name@) matches Some(i)
            && bytes@ == members(*old(archive))[i].content,
{
    let mut file = archive.by_name(name)?;
    let mut bytes = Vec::new();
    file.read_to_end(&mut bytes)?;
    Ok(bytes)
}

/// `ZipWriter::new` on an empty buffer in memory: a writer that holds no
/// entry.
#[verifier::external_body]
fn new_writer() -> (writer: ArchiveWriter)
    ensures
        written(writer) == Seq::<Entry>::empty(),
{
    ArchiveWriter { inner: zip::ZipWriter::new(std::io::Cursor::new(Vec::new())) }
}

/// `ZipWriter::raw_copy_file` on the member that `ZipArchive::by_index`
/// opens. The writer takes the member's name, its stored bytes and the values
/// recorded beside them, and neither unpacks nor packs anything. The call
/// succeeds where the member opens and the writer takes the copy, and only
/// there; both are named, not stated.
#[verifier::external_body]
fn copy_member(
    writer: &mut ArchiveWriter,
    archive: &mut zip::ZipArchive<std::io::Cursor<&[u8]>>,
    index: usize,
) -> (done: Result<(), ZipError>)
    requires
        index < members(*old(archive)).len(),
        members(*old(archive))[index as int].keyless,
    ensures
        members(*final(archive)) == members(*old(archive)),
        done is Ok <==> members(*old(archive))[index as int].opens && copy_fits(
            written(*old(writer)),
            members(*old(archive))[index as int].name,
            members(*old(archive))[index as int].stored,
        ),
        done is Ok ==> written(*final(writer)) == written(*old(writer)).push(
            Entry::Copy {
                name: members(*old(archive))[index as int].name,
                stored: members(*old(archive))[index as int].stored,
            },
        ),
{
    let file = archive.by_index(index)?;
    writer.inner.raw_copy_file(file)
}

/// `ZipWriter::add_directory` with the default options. The writer puts a
/// slash after a name that ends in neither a slash nor a backslash. Whether
/// the call succeeds is named, not stated.
#[verifier::external_body]
fn add_directory(writer: &mut ArchiveWriter, name: &str) -> (done: Result<(), ZipError>)
    ensures
        done is Ok <==> directory_fits(written(*old(writer)), name@),
        done is Ok ==> written(*final(writer)) == written(*old(writer)).push(
            Entry::Directory { name: dir_name(name@) },
        ),
{
    writer.inner.add_directory(name, zip::write::FileOptions::default())
}

/// `ZipWriter::start_file` with the default options: a new file entry, empty
/// so far. Whether the call succeeds is named, not stated.
#[verifier::external_body]
fn start_file(writer: &mut ArchiveWriter, name: &str) -> (done: Result<(), ZipError>)
    ensures
        done is Ok <==> file_fits(written(*old(writer)), name@),
        done is Ok ==> written(*final(writer)) == written(*old(writer)).push(
            Entry::File { name: name@, content: Seq::empty() },
        ),
{
    writer.inner.start_file(name, zip::write::FileOptions::default())
}

/// `Write::write_all` on the writer, right after `start_file`: the content of
/// the file entry that was started. It is called once for a file, with the
/// whole content. Whether the call succeeds is named, not stated.
#[verifier::external_body]
fn write_content(writer: &mut ArchiveWriter, content: &[u8]) -> (done: Result<(), ZipError>)
    requires
        written(*old(writer)).len() > 0,
        written(*old(writer)).last() matches Entry::File { content: so_far, .. } && so_far.len()
            == 0,
    ensures
        done is Ok <==> content_fits(written(*old(writer)), content@),
        done is Ok ==> written(*final(writer)) == written(*old(writer)).drop_last().push(
            Entry::File { name: written(*old(writer)).last().name(), content: content@ },
        ),
{
    Ok(writer.inner.write_all(content)?)
}

/// `ZipWriter::finish`, then `Cursor::into_inner`: the bytes of the finished
/// archive. The contract names the outcome, bytes or failure, after the
/// entries that the writer holds.
#[verifier::external_body]
fn finish(writer: ArchiveWriter) -> (bytes: Result<Vec<u8>, ZipError>)
    ensures
        match bytes {
            Ok(b) => finished(written(writer)) == Some(b@),
            Err(_) => finished(written(writer)) is None,
        },
{
    let mut writer = writer;
    Ok(writer.inner.finish()?.into_inner())
}

/// The path of the settings member in a word processing document.
pub const DOCX_SETTINGS_PATH: &'static str = "word/settings.xml";

/// `transform`, called on `input`, may return `output`.
pub open spec fn produces<F: Fn(&[u8]) -> Result<Vec<u8>, DocxError>>(
    transform: F,
    input: Seq<u8>,
    output: Seq<u8>,
) -> bool {
    exists|given: &[u8], made: Vec<u8>|
        given@ == input && made@ == output && #[trigger] call_ensures(
            transform,
            (given,),
            Ok::<Vec<u8>, DocxError>(made),
        )
}

/// `transform`, called on `input`, may fail with `error`.
pub open spec fn refuses<F: Fn(&[u8]) -> Result<Vec<u8>, DocxError>>(
    transform: F,
    input: Seq<u8>,
    error: DocxError,
) -> bool {
    exists|given: &[u8]|
        given@ == input && #[trigger] call_ensures(
            transform,
            (given,),
            Err::<Vec<u8>, DocxError>(error),
        )
}

/// Decides what repacking does with a member, from its name and from
/// whether it is a file.
pub fn member_action(header: &MemberHeader, member_name: &str) -> (action: MemberAction)
    ensures
        action == action_for(header.is_file, header.name@, member_name@),
{
    if !header.is_file {
        MemberAction::Declare
    } else {
        let target = member_name.to_owned();
        if header.name == target {
            MemberAction::Rewrite
        } else {
            MemberAction::Copy
        }
    }
}

/// The entries that the writer holds when repacking comes to the member at
/// `index`: what repacking made of the members before it.
pub open spec fn held_before(
    members: Seq<Member>,
    target: Seq<char>,
    replacements: Seq<Seq<u8>>,
    index: int,
) -> Seq<Entry> {
    repacked(members.take(index), target, replacements.take(index))
}

/// Whether repacking gets past a member on a writer that holds `held`. The
/// member has to open without a password. Then a directory has to be
/// declared, the file named `target` has to be read, started anew and to
/// take `replacement` as its content, and any other file has to be copied.
pub open spec fn step_fits(
    held: Seq<Entry>,
    member: Member,
    target: Seq<char>,
    replacement: Seq<u8>,
) -> bool {
    member.keyless && member.opens && if is_dir_name(member.name) {
        directory_fits(held, member.name)
    } else if member.name == target {
        member.reads && file_fits(held, member.name) && content_fits(
            held.push(Entry::File { name: member.name, content: Seq::empty() }),
            replacement,
        )
    } else {
        copy_fits(held, member.name, member.stored)
    }
}

/// Whether repacking gets past the member at `index`, after the members
/// before it.
pub open spec fn step_fits_at(
    members: Seq<Member>,
    target: Seq<char>,
    replacements: Seq<Seq<u8>>,
    index: int,
) -> bool {
    step_fits(
        held_before(members, target, replacements, index),
        members[index],
        target,
        replacements[index],
    )
}

/// Whether repacking gets past every member before `end`.
pub open spec fn steps_fit(
    members: Seq<Member>,
    target: Seq<char>,
    replacements: Seq<Seq<u8>>,
    end: int,
) -> bool {
    forall|i: int| 0 <= i < end ==> #[trigger] step_fits_at(members, target, replacements, i)
}

/// Whether repacking goes through with these replacements: it gets past
/// every member and the writer finishes the archive.
pub open spec fn repack_fits(
    members: Seq<Member>,
    target: Seq<char>,
    replacements: Seq<Seq<u8>>,
) -> bool {
    steps_fit(members, target, replacements, members.len() as int) && finished(
        repacked(members, target, replacements),
    ) is Some
}

/// Whether taking a member over as it is gets past it on a writer that holds
/// `held`.
pub open spec fn entry_step_fits(held: Seq<Entry>, member: Member) -> bool {
    member.keyless && member.opens && if is_dir_name(member.name) {
        directory_fits(held, member.name)
    } else {
        copy_fits(held, member.name, member.stored)
    }
}

/// Whether taking a whole archive over as it is goes through.
pub open spec fn copies_fit(members: Seq<Member>) -> bool {
    &&& forall|i: int|
        0 <= i < members.len() ==> entry_step_fits(copied(members.take(i)), #[trigger] members[i])
    &&& finished(copied(members)) is Some
}

/// A member on whose content the transform is called: a file named `target`
/// that opens without a password and reads.
pub open spec fn is_called_on(member: Member, target: Seq<char>) -> bool {
    is_replaced(member, target) && member.keyless && member.opens && member.reads
}

/// Every replacement before `end` that belongs to a rewritten member is one
/// that the transform may return on that member's content.
pub open spec fn made_by<F: Fn(&[u8]) -> Result<Vec<u8>, DocxError>>(
    transform: F,
    members: Seq<Member>,
    target: Seq<char>,
    replacements: Seq<Seq<u8>>,
    end: int,
) -> bool {
    forall|i: int|
        0 <= i < end && is_replaced(#[trigger] members[i], target) ==> produces(
            transform,
            members[i].content,
            replacements[i],
        )
}

/// Repacking succeeded with `out`: for replacements that the transform made,
/// it went through, and `out` is the archive that the writer finished.
pub open spec fn succeeds_with<F: Fn(&[u8]) -> Result<Vec<u8>, DocxError>>(
    transform: F,
    members: Seq<Member>,
    target: Seq<char>,
    replacements: Seq<Seq<u8>>,
    out: Seq<u8>,
) -> bool {
    &&& replacements.len() == members.len()
    &&& made_by(transform, members, target, replacements, members.len() as int)
    &&& steps_fit(members, target, replacements, members.len() as int)
    &&& finished(repacked(members, target, replacements)) == Some(out)
}

/// Repacking stopped with `error` at the member at `at`, or at the end where
/// `at` is the number of members. It got past the members before, with
/// replacements that the transform made. Then either the transform was
/// called on the member and failed with `error`; or `error` is an archive
/// error and repacking does not get past the member; or, at the end, the
/// writer does not finish the archive.
pub open spec fn stops_with<F: Fn(&[u8]) -> Result<Vec<u8>, DocxError>>(
    transform: F,
    members: Seq<Member>,
    target: Seq<char>,
    replacements: Seq<Seq<u8>>,
    at: int,
    error: DocxError,
) -> bool {
    &&& replacements.len() == members.len()
    &&& 0 <= at <= members.len()
    &&& made_by(transform, members, target, replacements, at)
    &&& steps_fit(members, target, replacements, at)
    &&& if at == members.len() {
        error is ZipError && finished(repacked(members, target, replacements)) is None
    } else {
        ||| is_called_on(members[at], target) && refuses(transform, members[at].content, error)
        ||| {
            &&& error is ZipError
            &&& !step_fits_at(members, target, replacements, at)
            &&& is_called_on(members[at], target) ==> produces(
                transform,
                members[at].content,
                replacements[at],
            )
        }
    }
}

/// Repacking succeeded with `out`, for some replacements.
pub open spec fn succeeds<F: Fn(&[u8]) -> Result<Vec<u8>, DocxError>>(
    transform: F,
    members: Seq<Member>,
    target: Seq<char>,
    out: Seq<u8>,
) -> bool {
    exists|replacements: Seq<Seq<u8>>| #[trigger]
        succeeds_with(transform, members, target, replacements, out)
}

/// Repacking stopped with `error`, somewhere and for some replacements.
pub open spec fn stops<F: Fn(&[u8]) -> Result<Vec<u8>, DocxError>>(
    transform: F,
    members: Seq<Member>,
    target: Seq<char>,
    error: DocxError,
) -> bool {
    exists|replacements: Seq<Seq<u8>>, at: int| #[trigger]
        stops_with(transform, members, target, replacements, at, error)
}

/// What repacking returns, for the listing of its input: an archive error
/// where there is none; on success an archive as `succeeds_with` says; and an
/// error only as `stops_with` says.
pub open spec fn repack_result<F: Fn(&[u8]) -> Result<Vec<u8>, DocxError>>(
    transform: F,
    listed: Option<Seq<Member>>,
    target: Seq<char>,
    result: Result<Vec<u8>, DocxError>,
) -> bool {
    match listed {
        None => result matches Err(DocxError::ZipError(_)),
        Some(members) => match result {
            Ok(out) => succeeds(transform, members, target, out@),
            Err(error) => stops(transform, members, target, error),
        },
    }
}

/// What repacking made of the members before `end` and of the one at `end`.
proof fn lemma_held_next(
    members: Seq<Member>,
    target: Seq<char>,
    replacements: Seq<Seq<u8>>,
    end: int,
)
    requires
        0 <= end < members.len(),
        replacements.len() == members.len(),
    ensures
        held_before(members, target, replacements, end + 1) == held_before(
            members,
            target,
            replacements,
            end,
        ).push(repacked_entry(members[end], target, replacements[end])),
{
    assert(held_before(members, target, replacements, end + 1) =~= held_before(
        members,
        target,
        replacements,
        end,
    ).push(repacked_entry(members[end], target, replacements[end])));
}

/// Replacements that agree on the rewritten members before `end` give the
/// same entries before `end` and the same answer at every step before it;
/// and the same answer at `end` where they agree there too, or where the
/// transform is not called on the member at `end`.
pub proof fn lemma_same_steps(
    members: Seq<Member>,
    target: Seq<char>,
    one: Seq<Seq<u8>>,
    other: Seq<Seq<u8>>,
    end: int,
)
    requires
        0 <= end <= members.len(),
        one.len() == members.len(),
        other.len() == members.len(),
        forall|i: int|
            0 <= i < end && is_replaced(#[trigger] members[i], target) ==> one[i] == other[i],
    ensures
        forall|i: int|
            0 <= i <= end ==> #[trigger] held_before(members, target, one, i) == held_before(
                members,
                target,
                other,
                i,
            ),
        steps_fit(members, target, one, end) == steps_fit(members, target, other, end),
        end < members.len() && (one[end] == other[end] || !is_called_on(members[end], target))
            ==> step_fits_at(members, target, one, end) == step_fits_at(
            members,
            target,
            other,
            end,
        ),
{
    assert forall|i: int| 0 <= i <= end implies #[trigger] held_before(members, target, one, i)
        == held_before(members, target, other, i) by {
        assert(held_before(members, target, one, i) =~= held_before(members, target, other, i));
    }
    assert forall|i: int| 0 <= i < end implies step_fits_at(members, target, one, i)
        == step_fits_at(members, target, other, i) by {
        assert(held_before(members, target, one, i) == held_before(members, target, other, i));
    }
    if steps_fit(members, target, one, end) {
        assert forall|i: int| 0 <= i < end implies #[trigger] step_fits_at(
            members,
            target,
            other,
            i,
        ) by {
            assert(step_fits_at(members, target, one, i));
        }
    }
    if steps_fit(members, target, other, end) {
        assert forall|i: int| 0 <= i < end implies #[trigger] step_fits_at(
            members,
            target,
            one,
            i,
        ) by {
            assert(step_fits_at(members, target, other, i));
        }
    }
    if end < members.len() {
        assert(held_before(members, target, one, end) == held_before(members, target, other, end));
    }
}

/// Where the archive holds no file named `target`, repacking goes through
/// where taking the archive over as it is does, whatever the replacements.
pub proof fn lemma_fits_without_target(
    members: Seq<Member>,
    target: Seq<char>,
    replacements: Seq<Seq<u8>>,
)
    requires
        !has_target(members, target),
        replacements.len() == members.len(),
    ensures
        forall|i: int|
            0 <= i <= members.len() ==> #[trigger] held_before(members, target, replacements, i)
                == copied(members.take(i)),
        forall|i: int|
            0 <= i < members.len() ==> #[trigger] step_fits_at(members, target, replacements, i)
                == entry_step_fits(copied(members.take(i)), members[i]),
        repacked(members, target, replacements) == copied(members),
        repack_fits(members, target, replacements) == copies_fit(members),
{
    assert forall|i: int| 0 <= i <= members.len() implies #[trigger] held_before(
        members,
        target,
        replacements,
        i,
    ) == copied(members.take(i)) by {
        let part = members.take(i);
        assert forall|k: int| 0 <= k < part.len() implies !is_replaced(
            #[trigger] part[k],
            target,
        ) by {
            assert(part[k] == members[k]);
        }
        repacking_without_target_copies(part, target, replacements.take(i));
    }
    assert forall|i: int| 0 <= i < members.len() implies #[trigger] step_fits_at(
        members,
        target,
        replacements,
        i,
    ) == entry_step_fits(copied(members.take(i)), members[i]) by {
        assert(held_before(members, target, replacements, i) == copied(members.take(i)));
        assert(!is_replaced(members[i], target));
    }
    repacking_without_target_copies(members, target, replacements);
    if repack_fits(members, target, replacements) {
        assert forall|i: int| 0 <= i < members.len() implies entry_step_fits(
            copied(members.take(i)),
            #[trigger] members[i],
        ) by {
            assert(step_fits_at(members, target, replacements, i));
        }
    }
    if copies_fit(members) {
        assert forall|i: int| 0 <= i < members.len() implies #[trigger] step_fits_at(
            members,
            target,
            replacements,
            i,
        ) by {
            assert(entry_step_fits(copied(members.take(i)), members[i]));
        }
    }
}

/// The members in their order, with the transform called where it is due.
/// This is the loop of `repack`.
fn repack_members<F>(zip_buf: &[u8], member_name: &str, member_transform: F) -> (result: Result<
    Vec<u8>,
    DocxError,
>) where F: Fn(&[u8]) -> Result<Vec<u8>, DocxError>
    requires
        forall|content: &[u8]|
            is_handed_over(listing(zip_buf@), member_name@, content@) ==> call_requires(
                member_transform,
                (content,),
            ),
    ensures
        repack_result(member_transform, listing(zip_buf@), member_name@, result),
{
    let mut archive = match open_archive(zip_buf) {
        Ok(archive) => archive,
        Err(e) => {
            return Err(DocxError::ZipError(e));
        },
    };
    let count = member_count(&archive);
    let mut writer = new_writer();
    let ghost all = members(archive);
    let ghost target = member_name@;
    let ghost mut made: Seq<Seq<u8>> = Seq::new(all.len(), |i: int| Seq::<u8>::empty());
    let mut index: usize = 0;
    proof {
        assert(held_before(all, target, made, 0) =~= Seq::<Entry>::empty());
    }
    while index < count
        invariant
            forall|content: &[u8]|
                is_handed_over(listing(zip_buf@), member_name@, content@) ==> call_requires(
                    member_transform,
                    (content,),
                ),
            listing(zip_buf@) == Some(all),
            members(archive) == all,
            target == member_name@,
            count == all.len(),
            index <= count,
            made.len() == all.len(),
            made_by(member_transform, all, target, made, index as int),
            steps_fit(all, target, made, index as int),
            written(writer) == held_before(all, target, made, index as int),
        decreases count - index,
    {
        let ghost at = index as int;
        if asks_for_password(&mut archive, index) {
            let error = DocxError::ZipError(password_required());
            proof {
                assert(stops_with(member_transform, all, target, made, at, error));
            }
            return Err(error);
        }
        let header = match member_header(&mut archive, index) {
            Ok(header) => header,
            Err(e) => {
                let error = DocxError::ZipError(e);
                proof {
                    assert(stops_with(member_transform, all, target, made, at, error));
                }
                return Err(error);
            },
        };
        let ghost held = written(writer);
        match member_action(&header, member_name) {
            MemberAction::Declare => {
                if let Err(e) = add_directory(&mut writer, header.name.as_str()) {
                    let error = DocxError::ZipError(e);
                    proof {
                        assert(stops_with(member_transform, all, target, made, at, error));
                    }
                    return Err(error);
                }
            },
            MemberAction::Copy => {
                if let Err(e) = copy_member(&mut writer, &mut archive, index) {
                    let error = DocxError::ZipError(e);
                    proof {
                        assert(stops_with(member_transform, all, target, made, at, error));
                    }
                    return Err(error);
                }
            },
            MemberAction::Rewrite => {
                let content = match read_member(&mut archive, index) {
                    Ok(content) => content,
                    Err(e) => {
                        let error = DocxError::ZipError(e);
                        proof {
                            assert(stops_with(member_transform, all, target, made, at, error));
                        }
                        return Err(error);
                    },
                };
                proof {
                    assert(is_replaced(all[at], target));
                    assert(is_handed_over(listing(zip_buf@), member_name@, content@));
                }
                let rewritten = match member_transform(content.as_slice()) {
                    Ok(rewritten) => rewritten,
                    Err(error) => {
                        proof {
                            assert(refuses(member_transform, all[at].content, error));
                            assert(stops_with(member_transform, all, target, made, at, error));
                        }
                        return Err(error);
                    },
                };
                proof {
                    let before = made;
                    made = made.update(at, rewritten@);
                    assert(produces(member_transform, all[at].content, made[at]));
                    lemma_same_steps(all, target, before, made, at);
                    assert forall|i: int|
                        0 <= i < at && is_replaced(#[trigger] all[i], target) implies produces(
                        member_transform,
                        all[i].content,
                        made[i],
                    ) by {
                        assert(made[i] == before[i]);
                    }
                }
                if let Err(e) = start_file(&mut writer, header.name.as_str()) {
                    let error = DocxError::ZipError(e);
                    proof {
                        assert(stops_with(member_transform, all, target, made, at, error));
                    }
                    return Err(error);
                }
                if let Err(e) = write_content(&mut writer, rewritten.as_slice()) {
                    let error = DocxError::ZipError(e);
                    proof {
                        assert(stops_with(member_transform, all, target, made, at, error));
                    }
                    return Err(error);
                }
                proof {
                    let started = Entry::File { name: header.name@, content: Seq::<u8>::empty() };
                    assert(held.push(started).drop_last() =~= held);
                }
            },
        }
        proof {
            lemma_held_next(all, target, made, at);
            assert(step_fits_at(all, target, made, at));
        }
        index += 1;
    }
    proof {
        assert(all.take(index as int) =~= all);
        assert(made.take(index as int) =~= made);
    }
    match finish(writer) {
        Ok(bytes) => {
            proof {
                assert(succeeds_with(member_transform, all, target, made, bytes@));
                assert(succeeds(member_transform, all, target, bytes@));
            }
            return Ok(bytes);
        },
        Err(e) => {
            let error = DocxError::ZipError(e);
            proof {
                assert(stops_with(member_transform, all, target, made, all.len() as int, error));
            }
            return Err(error);
        },
    }
}

/// The transform, called on `input`, can only succeed, and only with
/// `output`.
pub open spec fn gives_only<F: Fn(&[u8]) -> Result<Vec<u8>, DocxError>>(
    transform: F,
    input: Seq<u8>,
    output: Seq<u8>,
) -> bool {
    &&& forall|other: Seq<u8>| #[trigger] produces(transform, input, other) ==> other == output
    &&& forall|error: DocxError| !#[trigger] refuses(transform, input, error)
}

/// The transform settles the replacements: on the content of every file
/// named `target` it can only succeed, and only with the replacement that
/// `wanted` holds for that file.
pub open spec fn settles<F: Fn(&[u8]) -> Result<Vec<u8>, DocxError>>(
    transform: F,
    members: Seq<Member>,
    target: Seq<char>,
    wanted: Seq<Seq<u8>>,
) -> bool {
    &&& wanted.len() == members.len()
    &&& forall|i: int|
        0 <= i < members.len() && is_replaced(#[trigger] members[i], target) ==> gives_only(
            transform,
            members[i].content,
            wanted[i],
        )
}

/// A result that, where it is an archive, is the archive that the writer
/// finishes from `entries`.
pub open spec fn is_archive_of(result: Result<Vec<u8>, DocxError>, entries: Seq<Entry>) -> bool {
    result matches Ok(out) ==> finished(entries) == Some(out@)
}

/// With a transform that settles the replacements, repacking succeeds where
/// it goes through with these replacements, and only there, and returns the
/// archive made with them.
pub proof fn lemma_repack_settled<F: Fn(&[u8]) -> Result<Vec<u8>, DocxError>>(
    transform: F,
    members: Seq<Member>,
    target: Seq<char>,
    wanted: Seq<Seq<u8>>,
    result: Result<Vec<u8>, DocxError>,
)
    requires
        repack_result(transform, Some(members), target, result),
        settles(transform, members, target, wanted),
    ensures
        result is Ok <==> repack_fits(members, target, wanted),
        is_archive_of(result, repacked(members, target, wanted)),
{
    let n = members.len() as int;
    match result {
        Ok(out) => {
            let made = choose|made: Seq<Seq<u8>>| #[trigger]
                succeeds_with(transform, members, target, made, out@);
            assert forall|i: int| 0 <= i < n && is_replaced(
                #[trigger] members[i],
                target,
            ) implies made[i] == wanted[i] by {
                assert(produces(transform, members[i].content, made[i]));
            }
            lemma_same_steps(members, target, made, wanted, n);
            assert(repacked(members, target, made) =~= repacked(members, target, wanted));
        },
        Err(error) => {
            let (made, stop) = choose|made: Seq<Seq<u8>>, stop: int| #[trigger]
                stops_with(transform, members, target, made, stop, error);
            assert forall|i: int| 0 <= i < stop && is_replaced(
                #[trigger] members[i],
                target,
            ) implies made[i] == wanted[i] by {
                assert(produces(transform, members[i].content, made[i]));
            }
            lemma_same_steps(members, target, made, wanted, stop);
            if stop == n {
                assert(repacked(members, target, made) =~= repacked(members, target, wanted));
            } else {
                if is_called_on(members[stop], target) {
                    assert(is_replaced(members[stop], target));
                    assert(!refuses(transform, members[stop].content, error));
                    assert(produces(transform, members[stop].content, made[stop]));
                }
                assert(!step_fits_at(members, target, wanted, stop));
            }
        },
    }
}

/// What follows from `repack_result` where the archive holds no file named
/// `target`, and where a member does not open.
pub proof fn lemma_repack_result<F: Fn(&[u8]) -> Result<Vec<u8>, DocxError>>(
    transform: F,
    members: Seq<Member>,
    target: Seq<char>,
    result: Result<Vec<u8>, DocxError>,
)
    requires
        repack_result(transform, Some(members), target, result),
    ensures
        !has_target(members, target) ==> (result is Ok <==> copies_fit(members)),
        !has_target(members, target) ==> (result matches Ok(out) ==> finished(copied(members))
            == Some(out@)),
        (exists|i: int|
            0 <= i < members.len() && (!(#[trigger] members[i]).keyless || !members[i].opens))
            ==> result is Err,
        result matches Err(error) ==> error is ZipError || exists|i: int|
            0 <= i < members.len() && is_called_on(#[trigger] members[i], target) && refuses(
                transform,
                members[i].content,
                error,
            ),
{
    match result {
        Ok(out) => {
            let replacements = choose|replacements: Seq<Seq<u8>>| #[trigger]
                succeeds_with(transform, members, target, replacements, out@);
            assert forall|i: int| 0 <= i < members.len() implies (#[trigger] members[i]).keyless
                && members[i].opens by {
                assert(step_fits_at(members, target, replacements, i));
            }
            if !has_target(members, target) {
                lemma_fits_without_target(members, target, replacements);
            }
        },
        Err(error) => {
            let (replacements, at) = choose|replacements: Seq<Seq<u8>>, at: int| #[trigger]
                stops_with(transform, members, target, replacements, at, error);
            if !has_target(members, target) {
                lemma_fits_without_target(members, target, replacements);
                if at < members.len() {
                    assert(!is_replaced(members[at], target));
                    assert(!step_fits_at(members, target, replacements, at));
                    assert(!entry_step_fits(copied(members.take(at)), members[at]));
                }
            }
        },
    }
}

/// Rebuilds an archive, rewriting the file named `member_name`.
///
/// The members are taken in the order of the input. A directory is declared
/// anew under its name. The file named `member_name` is unpacked, handed to
/// `member_transform`, and what comes back is written as a new file under the
/// same name. Every other file is copied in its stored form, byte for byte,
/// without being unpacked. Where no file is named `member_name` the transform
/// is not called and the whole archive is copied.
///
/// The call fails where the input is no archive, where a member asks for a
/// password, does not open or cannot be read, where the writer does not take
/// an entry or does not finish, and with the transform's own error where the
/// transform fails. It succeeds everywhere else. No part of an archive is
/// returned with an error.
pub fn repack<F>(zip_buf: &[u8], member_name: &str, member_transform: F) -> (result: Result<
    Vec<u8>,
    DocxError,
>) where F: Fn(&[u8]) -> Result<Vec<u8>, DocxError>
    requires
        forall|content: &[u8]|
            is_handed_over(listing(zip_buf@), member_name@, content@) ==> call_requires(
                member_transform,
                (content,),
            ),
    ensures
        repack_result(member_transform, listing(zip_buf@), member_name@, result),
        listing(zip_buf@) is Some && !has_target(listing(zip_buf@)->0, member_name@) ==> {
            &&& result is Ok <==> copies_fit(listing(zip_buf@)->0)
            &&& result matches Ok(out) ==> finished(copied(listing(zip_buf@)->0)) == Some(out@)
        },
        listing(zip_buf@) is Some && (exists|i: int|
            0 <= i < listing(zip_buf@)->0.len() && (!(#[trigger] listing(zip_buf@)->0[i]).keyless
                || !listing(zip_buf@)->0[i].opens)) ==> result is Err,
        listing(zip_buf@) is Some ==> forall|wanted: Seq<Seq<u8>>| #[trigger]
            settles(member_transform, listing(zip_buf@)->0, member_name@, wanted) ==> {
                &&& result is Ok <==> repack_fits(listing(zip_buf@)->0, member_name@, wanted)
                &&& is_archive_of(result, repacked(listing(zip_buf@)->0, member_name@, wanted))
            },
        result matches Err(error) ==> {
            ||| error is ZipError
            ||| listing(zip_buf@) matches Some(members) && exists|i: int|
                0 <= i < members.len() && is_called_on(#[trigger] members[i], member_name@)
                    && refuses(member_transform, members[i].content, error)
        },
{
    let result = repack_members(zip_buf, member_name, member_transform);
    proof {
        if listing(zip_buf@) is Some {
            let members = listing(zip_buf@)->0;
            lemma_repack_result(member_transform, members, member_name@, result);
            assert forall|wanted: Seq<Seq<u8>>| #[trigger]
                settles(member_transform, members, member_name@, wanted) implies (result is Ok
                <==> repack_fits(members, member_name@, wanted)) && is_archive_of(
                result,
                repacked(members, member_name@, wanted),
            ) by {
                lemma_repack_settled(member_transform, members, member_name@, wanted, result);
            }
        }
    }
    result
}

/// Rebuilds a word processing document, rewriting its settings member.
///
/// This is `repack` with `word/settings.xml` as the name of the member.
pub fn repack_zip_buf_with_custom_function<F>(zip_buf: &[u8], buf_modifier_func: F) -> (result:
    Result<Vec<u8>, DocxError>) where F: Fn(&[u8]) -> Result<Vec<u8>, DocxError>
    requires
        forall|content: &[u8]|
            is_handed_over(listing(zip_buf@), DOCX_SETTINGS_PATH@, content@) ==> call_requires(
                buf_modifier_func,
                (content,),
            ),
    ensures
        repack_result(buf_modifier_func, listing(zip_buf@), DOCX_SETTINGS_PATH@, result),
        listing(zip_buf@) is Some && !has_target(listing(zip_buf@)->0, DOCX_SETTINGS_PATH@) ==> {
            &&& result is Ok <==> copies_fit(listing(zip_buf@)->0)
            &&& result matches Ok(out) ==> finished(copied(listing(zip_buf@)->0)) == Some(out@)
        },
        listing(zip_buf@) is Some && (exists|i: int|
            0 <= i < listing(zip_buf@)->0.len() && (!(#[trigger] listing(zip_buf@)->0[i]).keyless
                || !listing(zip_buf@)->0[i].opens)) ==> result is Err,
        listing(zip_buf@) is Some ==> forall|wanted: Seq<Seq<u8>>| #[trigger]
            settles(buf_modifier_func, listing(zip_buf@)->0, DOCX_SETTINGS_PATH@, wanted) ==> {
                &&& result is Ok <==> repack_fits(listing(zip_buf@)->0, DOCX_SETTINGS_PATH@, wanted)
                &&& is_archive_of(
                    result,
                    repacked(listing(zip_buf@)->0, DOCX_SETTINGS_PATH@, wanted),
                )
            },
        result matches Err(error) ==> {
            ||| error is ZipError
            ||| listing(zip_buf@) matches Some(members) && exists|i: int|
                0 <= i < members.len() && is_called_on(#[trigger] members[i], DOCX_SETTINGS_PATH@)
                    && refuses(buf_modifier_func, members[i].content, error)
        },
{
    repack(zip_buf, DOCX_SETTINGS_PATH, buf_modifier_func)
}

/// Writes new settings into the document at `path`.
///
/// A member of an archive cannot be overwritten in place, so nothing is
/// written: the call leaves the document as it is and succeeds. `repack`
/// is the way to replace a member.
pub fn write_settings(path: &str, new_settings: Vec<u8>) -> (result: Result<
    (),
    std::io::Error,
>)
    ensures
        result is Ok,
{
    Ok(())
}

/// Reads the settings member out of a word processing document.
///
/// Returns the content of the member named `word/settings.xml`, the last one
/// where several bear the name, where that member opens without a password
/// and reads. Returns `None` everywhere else: where the input is no archive,
/// where it holds no such member, and where the member asks for a password,
/// does not open or cannot be read.
pub fn extract_settings(zip_buf: &[u8]) -> (settings: Option<Vec<u8>>)
    ensures
        settings is Some <==> (listing(zip_buf@) matches Some(members) && lookup(
            members,
            DOCX_SETTINGS_PATH@,
        ) matches Some(i) && members[i].keyless && members[i].opens && members[i].reads),
        settings matches Some(content) ==> {
            &&& listing(zip_buf@) matches Some(members)
            &&& lookup(members, DOCX_SETTINGS_PATH@) matches Some(i)
            &&& content@ == members[i].content
        },
{
    let mut archive = match open_archive(zip_buf) {
        Ok(archive) => archive,
        Err(_) => {
            return None;
        },
    };
    if named_asks_for_password(&mut archive, DOCX_SETTINGS_PATH) {
        return None;
    }
    match read_named(&mut archive, DOCX_SETTINGS_PATH) {
        Ok(content) => Some(content),
        Err(_) => None,
    }
}

/// What unpacking an archive into a directory does with one member.
#[derive(Clone, Copy, Debug, PartialEq, Eq, Structural)]
pub enum ExtractAction {
    /// The member's name is no safe relative path: it is passed over.
    Skip,
    /// The member is a directory: the directory is created.
    CreateDir,
    /// The member is a file: its parent directories are created where they
    /// are missing, and the file is written.
    WriteFile,
}

/// Decides what unpacking does with a member, from its name and from whether
/// the name is a safe relative path. A name that ends in a slash denotes a
/// directory.
pub fn extract_action(name: &str, enclosed: bool) -> (action: ExtractAction)
    ensures
        action == if !enclosed {
            ExtractAction::Skip
        } else if ends_in_slash(name@) {
            ExtractAction::CreateDir
        } else {
            ExtractAction::WriteFile
        },
{
    let bytes = name.as_bytes();
    if !enclosed {
        ExtractAction::Skip
    } else if bytes.len() > 0 && bytes[bytes.len() - 1] == 0x2f {
        ExtractAction::CreateDir
    } else {
        ExtractAction::WriteFile
    }
}

/// One thing that unpacking an archive puts on disk.
#[derive(Debug)]
pub enum Extracted {
    /// A directory to create, by the name of its member.
    Directory { name: String },
    /// A file to write, by the name of its member, with its content.
    File { name: String, content: Vec<u8> },
}

impl View for Extracted {
    type V = ExtractedView;

    open spec fn view(&self) -> ExtractedView {
        match self {
            Extracted::Directory { name } => ExtractedView::Directory { name: name@ },
            Extracted::File { name, content } => ExtractedView::File {
                name: name@,
                content: content@,
            },
        }
    }
}

/// The values of a list of things to put on disk.
pub open spec fn extracted_views(steps: Seq<Extracted>) -> Seq<ExtractedView> {
    steps.map_values(|step: Extracted| step@)
}

/// Whether unpacking may stop at a member: it asks for a password, it cannot
/// be opened, or it is a file that cannot be read.
pub open spec fn may_stop_at(member: Member) -> bool {
    !member.keyless || !member.opens || (!ends_in_slash(member.name) && !member.reads)
}

/// Unpacks an archive into the list of directories to create and files to
/// write, in the order of the archive.
///
/// A member whose name is no safe relative path is passed over. Which names
/// are safe is for the archive reader to say, member by member; the result is
/// `unpacked` for what it said. A name that is a safe relative path on every
/// platform is never passed over.
///
/// The call fails where the input is no archive and where a member asks for a
/// password or cannot be opened. It fails where a file that is not passed
/// over cannot be read. Where every member opens and every file reads it
/// succeeds.
pub fn extract_archive(zip_buf: &[u8]) -> (result: Result<Vec<Extracted>, ZipError>)
    ensures
        listing(zip_buf@) is None ==> result is Err,
        listing(zip_buf@) matches Some(members) && (exists|i: int|
            0 <= i < members.len() && (!(#[trigger] members[i]).keyless || !members[i].opens))
            ==> result is Err,
        result matches Ok(steps) ==> {
            &&& listing(zip_buf@) matches Some(members)
            &&& exists|enclosed: Seq<bool>|
                keeps_plain_paths(members, enclosed) && extracted_views(steps@)
                    == #[trigger] unpacked(members, enclosed)
        },
        result is Err ==> {
            ||| listing(zip_buf@) is None
            ||| listing(zip_buf@) matches Some(members) && exists|i: int|
                0 <= i < members.len() && may_stop_at(#[trigger] members[i])
        },
{
    let mut archive = match open_archive(zip_buf) {
        Ok(archive) => archive,
        Err(e) => {
            return Err(e);
        },
    };
    let count = member_count(&archive);
    let mut steps: Vec<Extracted> = Vec::new();
    let ghost all = members(archive);
    let ghost mut flags: Seq<bool> = Seq::empty();
    let mut index: usize = 0;
    proof {
        assert(all.take(0) =~= Seq::<Member>::empty());
        assert(extracted_views(steps@) =~= Seq::<ExtractedView>::empty());
    }
    while index < count
        invariant
            listing(zip_buf@) == Some(all),
            members(archive) == all,
            count == all.len(),
            index <= count,
            flags.len() == index,
            forall|i: int| 0 <= i < index && is_plain_path((#[trigger] all[i]).name) ==> flags[i],
            forall|i: int| 0 <= i < index ==> (#[trigger] all[i]).keyless && all[i].opens,
            extracted_views(steps@) == unpacked(all.take(index as int), flags),
        decreases count - index,
    {
        if asks_for_password(&mut archive, index) {
            assert(may_stop_at(all[index as int]));
            return Err(password_required());
        }
        let header = match member_header(&mut archive, index) {
            Ok(header) => header,
            Err(e) => {
                assert(may_stop_at(all[index as int]));
                return Err(e);
            },
        };
        let enclosed = match member_is_enclosed(&mut archive, index) {
            Ok(enclosed) => enclosed,
            Err(e) => {
                assert(may_stop_at(all[index as int]));
                return Err(e);
            },
        };
        let ghost before = steps@;
        match extract_action(header.name.as_str(), enclosed) {
            ExtractAction::Skip => {},
            ExtractAction::CreateDir => {
                steps.push(Extracted::Directory { name: header.name });
            },
            ExtractAction::WriteFile => {
                let content = match read_member(&mut archive, index) {
                    Ok(content) => content,
                    Err(e) => {
                        assert(may_stop_at(all[index as int]));
                        return Err(e);
                    },
                };
                steps.push(Extracted::File { name: header.name, content });
            },
        }
        proof {
            assert(all.take(index + 1).drop_last() =~= all.take(index as int));
            assert(flags.push(enclosed).drop_last() =~= flags);
            if steps@.len() > before.len() {
                assert(extracted_views(steps@) =~= extracted_views(before).push(steps@.last()@));
            }
            flags = flags.push(enclosed);
        }
        index += 1;
    }
    proof {
        assert(all.take(index as int) =~= all);
        assert(listing(zip_buf@)->0 == all);
        assert(keeps_plain_paths(all, flags) && extracted_views(steps@) == unpacked(all, flags));
    }
    Ok(steps)
}

/// What building an archive from a directory tree does with one entry of the
/// tree.
#[derive(Clone, Copy, Debug, PartialEq, Eq, Structural)]
pub enum PackAction {
    /// A file: it is added under its path relative to the root of the tree.
    AddFile,
    /// A directory below the root: it is declared under its relative path.
    AddDirectory,
    /// The root of the tree itself: it is passed over.
    Skip,
}

/// Decides what building an archive does with an entry of the tree, from
/// whether it is a file and from its path relative to the root.
pub fn pack_action(is_file: bool, relative_name: &str) -> (action: PackAction)
    ensures
        action == if is_file {
            PackAction::AddFile
        } else if relative_name@.len() > 0 {
            PackAction::AddDirectory
        } else {
            PackAction::Skip
        },
{
    if is_file {
        PackAction::AddFile
    } else if !relative_name.is_empty() {
        PackAction::AddDirectory
    } else {
        PackAction::Skip
    }
}

/// One entry of a directory tree: its path relative to the root of the tree,
/// with `/` between its parts, whether it is a file, and for a file its
/// content.
#[derive(Debug)]
pub struct TreeEntry {
    pub name: String,
    pub is_file: bool,
    pub content: Vec<u8>,
}

impl View for TreeEntry {
    type V = TreeEntryView;

    open spec fn view(&self) -> TreeEntryView {
        TreeEntryView { name: self.name@, is_file: self.is_file, content: self.content@ }
    }
}

/// The values of the entries of a tree.
pub open spec fn tree_views(tree: Seq<TreeEntry>) -> Seq<TreeEntryView> {
    tree.map_values(|entry: TreeEntry| entry@)
}

/// Whether the writer takes the entry of a tree that comes after `before`:
/// for a file, whether it starts the file and then takes its content; for a
/// directory below the root, whether it declares the directory. The root
/// itself is handed to no call.
pub open spec fn entry_fits(before: Seq<TreeEntryView>, entry: TreeEntryView) -> bool {
    let held = packed_tree(before);
    if entry.is_file {
        file_fits(held, entry.name) && content_fits(
            held.push(Entry::File { name: entry.name, content: Seq::empty() }),
            entry.content,
        )
    } else if entry.name.len() > 0 {
        directory_fits(held, entry.name)
    } else {
        true
    }
}

/// Whether the writer takes every entry of a tree, each after those before it.
pub open spec fn tree_fits(tree: Seq<TreeEntryView>) -> bool {
    forall|i: int| 0 <= i < tree.len() ==> entry_fits(tree.take(i), #[trigger] tree[i])
}

/// Builds an archive from the entries of a directory tree, in their order.
///
/// A file is written under its relative path, a directory below the root is
/// declared, and the root itself is passed over. The call succeeds where the
/// writer takes every entry and finishes the archive, and only there.
pub fn build_archive_by_dir(tree: &Vec<TreeEntry>) -> (result: Result<Vec<u8>, ZipError>)
    ensures
        result is Ok <==> tree_fits(tree_views(tree@)) && finished(
            packed_tree(tree_views(tree@)),
        ) is Some,
        result matches Ok(out) ==> finished(packed_tree(tree_views(tree@))) == Some(out@),
{
    let mut writer = new_writer();
    let mut index: usize = 0;
    let ghost views = tree_views(tree@);
    proof {
        assert(views.take(0) =~= Seq::<TreeEntryView>::empty());
    }
    while index < tree.len()
        invariant
            index <= tree.len(),
            views == tree_views(tree@),
            written(writer) == packed_tree(views.take(index as int)),
            forall|i: int| 0 <= i < index ==> entry_fits(views.take(i), #[trigger] views[i]),
        decreases tree.len() - index,
    {
        let entry = &tree[index];
        let ghost held = written(writer);
        proof {
            assert(views.take(index + 1).drop_last() =~= views.take(index as int));
            assert(views.take(index + 1).last() == entry@);
            assert(views[index as int] == entry@);
        }
        match pack_action(entry.is_file, entry.name.as_str()) {
            PackAction::AddFile => {
                if let Err(e) = start_file(&mut writer, entry.name.as_str()) {
                    assert(!entry_fits(views.take(index as int), views[index as int]));
                    return Err(e);
                }
                if let Err(e) = write_content(&mut writer, entry.content.as_slice()) {
                    assert(!entry_fits(views.take(index as int), views[index as int]));
                    return Err(e);
                }
                proof {
                    let started = Entry::File { name: entry.name@, content: Seq::<u8>::empty() };
                    assert(held.push(started).drop_last() =~= held);
                }
            },
            PackAction::AddDirectory => {
                if let Err(e) = add_directory(&mut writer, entry.name.as_str()) {
                    assert(!entry_fits(views.take(index as int), views[index as int]));
                    return Err(e);
                }
            },
            PackAction::Skip => {},
        }
        index += 1;
    }
    proof {
        assert(views.take(index as int) =~= views);
    }
    finish(writer)
}

} // verus!
