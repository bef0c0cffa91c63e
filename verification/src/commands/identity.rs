//! Backing up an identity and restoring it.

use vstd::prelude::*;

use crate::commands::message;
use crate::commands::message::{concat, Message, MessageV};
use crate::text::copy_text;

verus! {

/// In which form an identity is exported.
#[derive(Debug, Clone, Copy, PartialEq, Eq, Structural)]
pub enum ExportForm {
    /// To a file, as it is.
    File,
    /// To a file, as text.
    ArmoredFile,
    /// To the output, as text.
    Printed,
}

/// Decides in which form an identity is exported. Without a file it is text in any
/// case, which a terminal can show.
pub fn export_form(to_file: bool, armor: bool) -> (r: ExportForm)
    ensures
        r == (if !to_file {
            ExportForm::Printed
        } else if armor {
            ExportForm::ArmoredFile
        } else {
            ExportForm::File
        }),
{
    if !to_file {
        ExportForm::Printed
    } else if armor {
        ExportForm::ArmoredFile
    } else {
        ExportForm::File
    }
}

/// What is said of an export to a file.
pub open spec fn exported_text(file: Seq<char>) -> Seq<MessageV> {
    seq![
        MessageV::Success("Identity backup written to "@ + file),
        MessageV::Warn(
            "Keep this backup offline and safe \u{2014} it is the only copy of your key."@,
        ),
    ]
}

/// Says where an identity was exported to.
pub fn exported_messages(file: &str) -> (r: Vec<Message>)
    ensures
        message::said(r@) == exported_text(file@),
{
    let r: Vec<Message> = vec![
        Message::Success(concat("Identity backup written to ", file)),
        Message::Warn(
            copy_text(
                "Keep this backup offline and safe \u{2014} it is the only copy of your key.",
            ),
        ),
    ];
    assert(message::said(r@) =~= exported_text(file@));
    r
}

/// What is said of an import.
pub open spec fn imported_text(identity_path: Seq<char>, public: Seq<char>) -> Seq<MessageV> {
    seq![
        MessageV::Success("Identity restored to "@ + identity_path),
        MessageV::Info("Public key (recipient): "@ + public),
    ]
}

/// Says which identity was imported.
pub fn imported_messages(identity_path: &str, public: &str) -> (r: Vec<Message>)
    ensures
        message::said(r@) == imported_text(identity_path@, public@),
{
    let r: Vec<Message> = vec![
        Message::Success(concat("Identity restored to ", identity_path)),
        Message::Info(concat("Public key (recipient): ", public)),
    ];
    assert(message::said(r@) =~= imported_text(identity_path@, public@));
    r
}

} // verus!
