//! Marks a word processing document as read-only: rewrites the document
//! protection element of its settings member and leaves every other member of
//! the archive as it is.
//!
//! - [`events`] and [`rewrite`] hold the model of an XML document as a stream
//!   of events, the edit made to it, and what is proved of the edit.
//! - [`utf8`] tells well-formed UTF-8 from other bytes.
//! - [`xml_utils`] reads a settings document with `quick_xml` and applies the
//!   edit.
//! - [`archive`] holds the model of an archive as a sequence of members, what
//!   repacking makes of it, and what is proved of that.
//! - [`zip_utils`] repacks an archive with `zip`.
//!
//! The protection that is written is a mark, not a lock: its hash and salt are
//! fixed values that belong to no password.

use crate::archive::{is_replaced, repacked, Entry, Member};
use crate::xml_utils::{apply_settings_readonly, readonly_settings, refusal_offset};
use crate::zip_utils::{
    finished, is_called_on, lemma_same_steps, listing, produces, refuses, repack_fits,
    repack_result, repack_zip_buf_with_custom_function, step_fits_at, steps_fit, stops_with,
    succeeds_with, DOCX_SETTINGS_PATH,
};
use vstd::prelude::*;

pub mod archive;
pub mod events;
pub mod rewrite;
pub mod utf8;
pub mod xml_utils;
pub mod zip_utils;

verus! {

/// `std::io::Error`, what reading and writing report. Verus sees nothing
/// inside it.
#[verifier::external_type_specification]
#[verifier::external_body]
pub struct ExIoError(std::io::Error);

/// What can go wrong while a document is made read-only.
#[derive(Debug)]
pub enum DocxError {
    /// The archive could not be read or written.
    ZipError(zip::result::ZipError),
    /// The settings member is not well-formed XML.
    XmlError(xml_utils::ParseError),
    /// A file could not be read or written.
    IoError(std::io::Error),
}

/// An `XmlError` that carries the given offset of a refusal.
pub open spec fn is_xml_error_at(error: DocxError, fault: Option<usize>) -> bool {
    error matches DocxError::XmlError(e) && fault == Some(e.position)
}

/// A result that is an `XmlError` with the given offset of a refusal.
pub open spec fn fails_on_fault(result: Result<Vec<u8>, DocxError>, fault: Option<usize>) -> bool {
    result matches Err(error) && is_xml_error_at(error, fault)
}

/// For each member the content that it gets where it is the settings member:
/// its own content marked as read-only.
pub open spec fn readonly_replacements(members: Seq<Member>) -> Seq<Seq<u8>> {
    Seq::new(members.len(), |i: int| readonly_settings(members[i].content))
}

/// The entries of a document made read-only: those of the input, with the
/// settings member written anew from its content marked as read-only.
pub open spec fn protected(members: Seq<Member>) -> Seq<Entry> {
    repacked(members, DOCX_SETTINGS_PATH@, readonly_replacements(members))
}

/// Whether the rewriter accepts every settings member of the document:
/// whether it refuses none of them as malformed.
pub open spec fn settings_are_accepted(members: Seq<Member>) -> bool {
    forall|i: int|
        0 <= i < members.len() && is_replaced(#[trigger] members[i], DOCX_SETTINGS_PATH@)
            ==> refusal_offset(members[i].content) is None
}

/// Whether the member at `at` is the settings member at which making the
/// document read-only stops with a refusal: it is read, the rewriter refuses
/// its content as malformed, it accepts every settings member before it, and
/// repacking gets past every member before it.
pub open spec fn stops_at_refused(members: Seq<Member>, at: int) -> bool {
    &&& 0 <= at < members.len()
    &&& is_called_on(members[at], DOCX_SETTINGS_PATH@)
    &&& refusal_offset(members[at].content) is Some
    &&& steps_fit(members, DOCX_SETTINGS_PATH@, readonly_replacements(members), at)
    &&& forall|i: int|
        0 <= i < at && is_replaced(#[trigger] members[i], DOCX_SETTINGS_PATH@) ==> refusal_offset(
            members[i].content,
        ) is None
}

/// What repacking returns where the transform marks settings as read-only:
/// where it can only return the settings marked as read-only, and can only
/// fail on settings that the rewriter refuses, with the offset of the
/// refusal.
proof fn lemma_readonly_result<F: Fn(&[u8]) -> Result<Vec<u8>, DocxError>>(
    transform: F,
    members: Seq<Member>,
    result: Result<Vec<u8>, DocxError>,
)
    requires
        repack_result(transform, Some(members), DOCX_SETTINGS_PATH@, result),
        forall|input: Seq<u8>, output: Seq<u8>| #[trigger]
            produces(transform, input, output) ==> refusal_offset(input) is None && output
                == readonly_settings(input),
        forall|input: Seq<u8>, error: DocxError| #[trigger]
            refuses(transform, input, error) ==> is_xml_error_at(error, refusal_offset(input)),
    ensures
        result is Ok <==> repack_fits(members, DOCX_SETTINGS_PATH@, readonly_replacements(members))
            && settings_are_accepted(members),
        result matches Ok(out) ==> finished(protected(members)) == Some(out@),
        result matches Err(error) ==> {
            ||| error is ZipError
            ||| error matches DocxError::XmlError(e) && exists|i: int|
                0 <= i < members.len() && is_replaced(#[trigger] members[i], DOCX_SETTINGS_PATH@)
                    && refusal_offset(members[i].content) == Some(e.position)
        },
        forall|at: int| #[trigger]
            stops_at_refused(members, at) ==> fails_on_fault(
                result,
                refusal_offset(members[at].content),
            ),
{
    let target = DOCX_SETTINGS_PATH@;
    let wanted = readonly_replacements(members);
    let n = members.len() as int;
    match result {
        Ok(out) => {
            let made = choose|made: Seq<Seq<u8>>| #[trigger]
                succeeds_with(transform, members, target, made, out@);
            assert forall|i: int| 0 <= i < n && is_replaced(
                #[trigger] members[i],
                target,
            ) implies made[i] == wanted[i] && refusal_offset(members[i].content) is None by {
                assert(produces(transform, members[i].content, made[i]));
            }
            lemma_same_steps(members, target, made, wanted, n);
            assert(repacked(members, target, made) =~= protected(members));
        },
        Err(error) => {
            let (made, stop) = choose|made: Seq<Seq<u8>>, stop: int| #[trigger]
                stops_with(transform, members, target, made, stop, error);
            assert forall|i: int| 0 <= i < stop && is_replaced(
                #[trigger] members[i],
                target,
            ) implies made[i] == wanted[i] && refusal_offset(members[i].content) is None by {
                assert(produces(transform, members[i].content, made[i]));
            }
            lemma_same_steps(members, target, made, wanted, stop);
            if stop == n {
                assert(repacked(members, target, made) =~= protected(members));
            } else {
                if is_called_on(members[stop], target) && refuses(
                    transform,
                    members[stop].content,
                    error,
                ) {
                    assert(is_replaced(members[stop], target));
                    assert(refusal_offset(members[stop].content) is Some);
                } else {
                    if is_called_on(members[stop], target) {
                        assert(produces(transform, members[stop].content, made[stop]));
                    }
                    assert(!step_fits_at(members, target, wanted, stop));
                }
            }
            assert forall|at: int| #[trigger]
                stops_at_refused(members, at) implies is_xml_error_at(
                error,
                refusal_offset(members[at].content),
            ) by {
                if stop < at {
                    assert(step_fits_at(members, target, wanted, stop));
                    assert(is_replaced(members[stop], target) ==> refusal_offset(
                        members[stop].content,
                    ) is None);
                } else if stop > at {
                    assert(is_replaced(members[at], target));
                    assert(produces(transform, members[at].content, made[at]));
                }
            }
        },
    }
}

/// Makes a word processing document read-only.
///
/// The document is an archive. Its settings member, `word/settings.xml`, is
/// rewritten so that it holds the document protection element exactly once;
/// every other member is taken over unchanged. A document without a settings
/// member is copied as it is.
///
/// The call succeeds where the archive can be repacked with the settings
/// marked as read-only and the rewriter accepts the settings, and only
/// there. It fails with `XmlError` where it comes to a settings member that
/// the rewriter refuses as malformed, and with `ZipError` where the archive
/// cannot be read or written.
pub fn make_docx_readonly_from_buf(docx_buf: &[u8]) -> (result: Result<Vec<u8>, DocxError>)
    ensures
        listing(docx_buf@) is None ==> result matches Err(DocxError::ZipError(_)),
        result is Ok <==> listing(docx_buf@) is Some && repack_fits(
            listing(docx_buf@)->0,
            DOCX_SETTINGS_PATH@,
            readonly_replacements(listing(docx_buf@)->0),
        ) && settings_are_accepted(listing(docx_buf@)->0),
        result matches Ok(out) ==> finished(protected(listing(docx_buf@)->0)) == Some(out@),
        result matches Err(error) ==> {
            ||| error is ZipError
            ||| error matches DocxError::XmlError(e) && listing(docx_buf@) matches Some(members)
                && exists|i: int|
                0 <= i < members.len() && is_replaced(#[trigger] members[i], DOCX_SETTINGS_PATH@)
                    && refusal_offset(members[i].content) == Some(e.position)
        },
        listing(docx_buf@) is Some ==> forall|at: int| #[trigger]
            stops_at_refused(listing(docx_buf@)->0, at) ==> fails_on_fault(
                result,
                refusal_offset(listing(docx_buf@)->0[at].content),
            ),
{
    let rewrite = |content: &[u8]| -> (rewritten: Result<Vec<u8>, DocxError>)
        ensures
            match rewritten {
                Ok(out) => refusal_offset(content@) is None && out@ == readonly_settings(content@),
                Err(error) => is_xml_error_at(error, refusal_offset(content@)),
            },
        {
            match apply_settings_readonly(content) {
                Ok(out) => Ok(out),
                Err(e) => Err(DocxError::XmlError(e)),
            }
        };
    let result = repack_zip_buf_with_custom_function(docx_buf, rewrite);
    proof {
        if listing(docx_buf@) is Some {
            lemma_readonly_result(rewrite, listing(docx_buf@)->0, result);
        }
    }
    result
}

} // verus!
