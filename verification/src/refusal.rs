//! Requests that are turned down, and what is answered to them.

use crate::text;
use vstd::prelude::*;

verus! {

/// Why a request is turned down.
#[derive(Debug)]
pub enum Refusal {
    /// `Host` does not name this machine.
    ForeignHost,
    /// A `POST` without the header `X-Diskmap: 1`.
    Unmarked,
    UnknownRoute,
    /// No volume is named.
    DriveMissing,
    /// The path of a scan ends without a letter.
    LetterMissing,
    UnknownDrive,
    /// The volume has no index yet.
    NotScanned,
    Stopping,
    BadId,
    DirOutOfRange,
    FileOutOfRange,
    UnknownMode,
    /// No such token, or one that is too old.
    NoToken,
    TokenOfAnotherDrive,
    ConfirmationMissing,
    /// The token went to another request in the meantime.
    TokenUsed,
    NotUnreadable,
    /// A walk is under way.
    Busy { letter: char, dirs: u64, files: u64 },
    /// The body of the request could not be read, and why.
    BadBody(String),
}

pub open spec fn status_of(e: Refusal) -> Seq<char> {
    match e {
        Refusal::ForeignHost | Refusal::Unmarked => "403 Forbidden"@,
        Refusal::UnknownRoute | Refusal::UnknownDrive => "404 Not Found"@,
        Refusal::NotScanned | Refusal::Stopping | Refusal::NoToken | Refusal::TokenUsed
        | Refusal::Busy { .. } => "409 Conflict"@,
        _ => "400 Bad Request"@,
    }
}

pub open spec fn message_of(e: Refusal) -> Seq<char> {
    match e {
        Refusal::ForeignHost => "hôte refusé"@,
        Refusal::Unmarked => "en-tête X-Diskmap absent"@,
        Refusal::UnknownRoute => "route inconnue"@,
        Refusal::DriveMissing => "drive manquant"@,
        Refusal::LetterMissing => "lettre manquante"@,
        Refusal::UnknownDrive => "volume inconnu"@,
        Refusal::NotScanned => "volume pas encore analysé"@,
        Refusal::Stopping => "arrêt en cours"@,
        Refusal::BadId => "id invalide"@,
        Refusal::DirOutOfRange => "dossier hors bornes"@,
        Refusal::FileOutOfRange => "fichier hors bornes"@,
        Refusal::UnknownMode => "mode inconnu"@,
        Refusal::NoToken => "jeton absent ou expiré : relance une simulation avant de supprimer"@,
        Refusal::TokenOfAnotherDrive => "jeton d'un autre volume"@,
        Refusal::ConfirmationMissing => "confirmation « EFFACER » absente"@,
        Refusal::TokenUsed => "jeton consommé entre-temps : relance une simulation"@,
        Refusal::NotUnreadable => "chemin hors de la liste des illisibles"@,
        Refusal::Busy { letter, dirs, files } => seq![letter] + ": analyse en cours ("@
            + text::decimal(dirs as nat) + " dossiers, "@ + text::decimal(files as nat)
            + " fichiers parcourus)"@,
        Refusal::BadBody(why) => "corps illisible : "@ + why@,
    }
}

impl Refusal {
    /// The status line of the answer.
    pub fn status(&self) -> (r: &'static str)
        ensures
            r@ == status_of(*self),
    {
        match self {
            Refusal::ForeignHost | Refusal::Unmarked => "403 Forbidden",
            Refusal::UnknownRoute | Refusal::UnknownDrive => "404 Not Found",
            Refusal::NotScanned | Refusal::Stopping | Refusal::NoToken | Refusal::TokenUsed
            | Refusal::Busy { .. } => "409 Conflict",
            _ => "400 Bad Request",
        }
    }

    /// The body of the answer.
    pub fn message(&self) -> (r: String)
        ensures
            r@ == message_of(*self),
    {
        match self {
            Refusal::ForeignHost => "hôte refusé".to_string(),
            Refusal::Unmarked => "en-tête X-Diskmap absent".to_string(),
            Refusal::UnknownRoute => "route inconnue".to_string(),
            Refusal::DriveMissing => "drive manquant".to_string(),
            Refusal::LetterMissing => "lettre manquante".to_string(),
            Refusal::UnknownDrive => "volume inconnu".to_string(),
            Refusal::NotScanned => "volume pas encore analysé".to_string(),
            Refusal::Stopping => "arrêt en cours".to_string(),
            Refusal::BadId => "id invalide".to_string(),
            Refusal::DirOutOfRange => "dossier hors bornes".to_string(),
            Refusal::FileOutOfRange => "fichier hors bornes".to_string(),
            Refusal::UnknownMode => "mode inconnu".to_string(),
            Refusal::NoToken => {
                "jeton absent ou expiré : relance une simulation avant de supprimer".to_string()
            },
            Refusal::TokenOfAnotherDrive => "jeton d'un autre volume".to_string(),
            Refusal::ConfirmationMissing => "confirmation « EFFACER » absente".to_string(),
            Refusal::TokenUsed => {
                "jeton consommé entre-temps : relance une simulation".to_string()
            },
            Refusal::NotUnreadable => "chemin hors de la liste des illisibles".to_string(),
            Refusal::Busy { letter, dirs, files } => {
                let mut m = String::new();
                m.push(*letter);
                assert(m@ =~= seq![*letter]);
                m.append(": analyse en cours (");
                text::push_decimal(&mut m, *dirs);
                m.append(" dossiers, ");
                text::push_decimal(&mut m, *files);
                m.append(" fichiers parcourus)");
                m
            },
            Refusal::BadBody(why) => {
                let mut m = "corps illisible : ".to_string();
                m.append(why.as_str());
                m
            },
        }
    }
}

} // verus!
