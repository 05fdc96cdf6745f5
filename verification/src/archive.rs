//! The member view of an archive: what an input archive holds, what an output
//! archive is made of, and what repacking does to the one from the other.

use vstd::prelude::*;
use vstd::utf8::encode_utf8;

verus! {

/// The form in which an archive stores a member: the bytes as they lie in the
/// archive, compressed or not, and the values recorded beside them.
pub struct Stored {
    /// The code of the compression method.
    pub method: u16,
    /// The checksum recorded for the uncompressed content.
    pub checksum: u32,
    /// The recorded length of the stored bytes.
    pub compressed_size: u64,
    /// The recorded length of the uncompressed content.
    pub size: u64,
    /// The recorded modification date and time, as two MS-DOS words.
    pub modified: (u16, u16),
    /// The recorded Unix mode, where there is one.
    pub mode: Option<u32>,
    /// The stored bytes.
    pub data: Seq<u8>,
}

/// One member of an input archive.
pub struct Member {
    /// The member's name: a relative path with `/` between its parts.
    pub name: Seq<char>,
    /// Whether the member opens without a password.
    pub keyless: bool,
    /// Whether the member can be opened for reading at all.
    pub opens: bool,
    /// Whether the opened member can be read to its end: whether its stored
    /// bytes unpack and match the checksum.
    pub reads: bool,
    /// The member's content, uncompressed.
    pub content: Seq<u8>,
    /// The member as the archive stores it.
    pub stored: Stored,
}

/// One entry of an output archive, by the way it was added.
pub enum Entry {
    /// A directory, declared anew.
    Directory { name: Seq<char> },
    /// A file written anew from its content.
    File { name: Seq<char>, content: Seq<u8> },
    /// A file taken over in its stored form, without being unpacked.
    Copy { name: Seq<char>, stored: Stored },
}

impl Entry {
    /// The name of the entry.
    pub open spec fn name(self) -> Seq<char> {
        match self {
            Entry::Directory { name } => name,
            Entry::File { name, .. } => name,
            Entry::Copy { name, .. } => name,
        }
    }
}

/// A name that denotes a directory: one that ends in a slash or a backslash.
pub open spec fn is_dir_name(name: Seq<char>) -> bool {
    name.len() > 0 && (name.last() == '/' || name.last() == '\\')
}

/// The name under which a directory is entered: the name itself where it
/// denotes a directory, else the name with a slash after it.
pub open spec fn dir_name(name: Seq<char>) -> Seq<char> {
    if is_dir_name(name) {
        name
    } else {
        name.push('/')
    }
}

/// A member that repacking rewrites: a file whose name is `target`.
pub open spec fn is_replaced(member: Member, target: Seq<char>) -> bool {
    !is_dir_name(member.name) && member.name == target
}

/// The raw copy of a file member.
pub open spec fn copy_of(member: Member) -> Entry {
    Entry::Copy { name: member.name, stored: member.stored }
}

/// What repacking makes of one member: a directory is declared anew, the file
/// named `target` is written anew with `replacement` as its content, and every
/// other file is copied in its stored form.
pub open spec fn repacked_entry(member: Member, target: Seq<char>, replacement: Seq<u8>) -> Entry {
    if is_dir_name(member.name) {
        Entry::Directory { name: member.name }
    } else if member.name == target {
        Entry::File { name: member.name, content: replacement }
    } else {
        copy_of(member)
    }
}

/// What repacking makes of an archive: of each member what `repacked_entry`
/// makes of it, in the order of the input. `replacements` holds, at the index
/// of each rewritten member, its new content.
pub open spec fn repacked(
    members: Seq<Member>,
    target: Seq<char>,
    replacements: Seq<Seq<u8>>,
) -> Seq<Entry> {
    Seq::new(members.len(), |i: int| repacked_entry(members[i], target, replacements[i]))
}

/// Whether an archive holds a file named `target`.
pub open spec fn has_target(members: Seq<Member>, target: Seq<char>) -> bool {
    exists|i: int| 0 <= i < members.len() && is_replaced(#[trigger] members[i], target)
}

/// Whether repacking hands `content` to the transform: whether it is the
/// content of a file named `target` in the archive that was listed.
pub open spec fn is_handed_over(
    listed: Option<Seq<Member>>,
    target: Seq<char>,
    content: Seq<u8>,
) -> bool {
    listed matches Some(members) && exists|i: int|
        0 <= i < members.len() && is_replaced(#[trigger] members[i], target) && members[i].content
            == content
}

/// An archive taken over as it is: directories declared anew, every file
/// copied in its stored form.
pub open spec fn copied(members: Seq<Member>) -> Seq<Entry> {
    Seq::new(
        members.len(),
        |i: int|
            if is_dir_name(members[i].name) {
                Entry::Directory { name: members[i].name }
            } else {
                copy_of(members[i])
            },
    )
}

/// The index under which an archive finds a member by its name: that of the
/// last member so named.
pub open spec fn lookup(members: Seq<Member>, name: Seq<char>) -> Option<int>
    decreases members.len(),
{
    if members.len() == 0 {
        None
    } else if members.last().name == name {
        Some(members.len() - 1)
    } else {
        lookup(members.drop_last(), name)
    }
}

/// What a member is repacked as: declared anew, rewritten, or copied.
#[derive(Clone, Copy, Debug, PartialEq, Eq, Structural)]
pub enum MemberAction {
    /// A directory: declared anew under its name.
    Declare,
    /// The file to rewrite: unpacked, transformed and written anew.
    Rewrite,
    /// Any other file: copied in its stored form.
    Copy,
}

/// The action that repacking takes on a member, given whether it is a file,
/// its name, and the name of the file to rewrite.
pub open spec fn action_for(is_file: bool, name: Seq<char>, target: Seq<char>) -> MemberAction {
    if !is_file {
        MemberAction::Declare
    } else if name == target {
        MemberAction::Rewrite
    } else {
        MemberAction::Copy
    }
}

/// Repacking keeps the members' names and their order, and takes every member
/// but the rewritten ones over unchanged: a directory under its name, a file
/// in its stored form, byte for byte.
pub proof fn repacking_keeps_other_members(
    members: Seq<Member>,
    target: Seq<char>,
    replacements: Seq<Seq<u8>>,
)
    ensures
        repacked(members, target, replacements).len() == members.len(),
        forall|i: int|
            0 <= i < members.len() ==> (#[trigger] repacked(
                members,
                target,
                replacements,
            )[i]).name() == members[i].name,
        forall|i: int|
            0 <= i < members.len() && !is_replaced(members[i], target) ==> #[trigger] repacked(
                members,
                target,
                replacements,
            )[i] == copied(members)[i],
        forall|i: int|
            0 <= i < members.len() && is_replaced(members[i], target) ==> #[trigger] repacked(
                members,
                target,
                replacements,
            )[i] == (Entry::File { name: target, content: replacements[i] }),
{
}

/// Repacking an archive that holds no file named `target` takes the whole
/// archive over as it is, whatever the replacements would have been.
pub proof fn repacking_without_target_copies(
    members: Seq<Member>,
    target: Seq<char>,
    replacements: Seq<Seq<u8>>,
)
    requires
        !has_target(members, target),
    ensures
        repacked(members, target, replacements) == copied(members),
{
    assert forall|i: int| 0 <= i < members.len() implies repacked(
        members,
        target,
        replacements,
    )[i] == copied(members)[i] by {
        assert(!is_replaced(members[i], target));
    }
    assert(repacked(members, target, replacements) =~= copied(members));
}

/// What unpacking an archive puts on disk for one member.
pub enum ExtractedView {
    /// A directory to create.
    Directory { name: Seq<char> },
    /// A file to write, with its content.
    File { name: Seq<char>, content: Seq<u8> },
}

/// A name whose last byte, in UTF-8, is a slash.
pub open spec fn ends_in_slash(name: Seq<char>) -> bool {
    encode_utf8(name).len() > 0 && encode_utf8(name).last() == 0x2f
}

/// A name that is a safe relative path on every platform: it is not empty,
/// does not begin with a slash, holds no NUL, no backslash and no colon, and
/// nowhere two dots in a row. Every part of such a name is an ordinary file
/// name or a single dot.
pub open spec fn is_plain_path(name: Seq<char>) -> bool {
    &&& name.len() > 0
    &&& name[0] != '/'
    &&& forall|i: int|
        0 <= i < name.len() ==> #[trigger] name[i] != '\0' && name[i] != '\\' && name[i] != ':'
    &&& forall|i: int|
        0 <= i < name.len() - 1 ==> !(#[trigger] name[i] == '.' && name[i + 1] == '.')
}

/// Whether the flags that the archive reader gave do justice to the names:
/// there is one for each member, and a member whose name is a safe relative
/// path on every platform is not passed over.
pub open spec fn keeps_plain_paths(members: Seq<Member>, enclosed: Seq<bool>) -> bool {
    &&& enclosed.len() == members.len()
    &&& forall|i: int|
        0 <= i < members.len() && is_plain_path((#[trigger] members[i]).name) ==> enclosed[i]
}

/// What unpacking makes of an archive, given for each member whether its name
/// was found to be a safe relative path: a member whose name is not is passed
/// over, a name that ends in a slash gives a directory, and every other member
/// gives a file with the member's content. The order is that of the archive.
pub open spec fn unpacked(members: Seq<Member>, enclosed: Seq<bool>) -> Seq<ExtractedView>
    decreases members.len(),
{
    if members.len() == 0 {
        Seq::empty()
    } else {
        let before = unpacked(members.drop_last(), enclosed.drop_last());
        let member = members.last();
        if !enclosed.last() {
            before
        } else if ends_in_slash(member.name) {
            before.push(ExtractedView::Directory { name: member.name })
        } else {
            before.push(ExtractedView::File { name: member.name, content: member.content })
        }
    }
}

/// One entry of a directory tree that is to be packed: its path relative to
/// the root of the tree, whether it is a file, and the content of a file.
pub struct TreeEntryView {
    pub name: Seq<char>,
    pub is_file: bool,
    pub content: Seq<u8>,
}

/// The entries of the archive built from a directory tree: a file is written
/// anew under its relative path, a directory below the root is declared, and
/// the root itself, whose relative path is empty, is passed over. The order is
/// that of the tree.
pub open spec fn packed_tree(tree: Seq<TreeEntryView>) -> Seq<Entry>
    decreases tree.len(),
{
    if tree.len() == 0 {
        Seq::empty()
    } else {
        let before = packed_tree(tree.drop_last());
        let entry = tree.last();
        if entry.is_file {
            before.push(Entry::File { name: entry.name, content: entry.content })
        } else if entry.name.len() > 0 {
            before.push(Entry::Directory { name: dir_name(entry.name) })
        } else {
            before
        }
    }
}

} // verus!
