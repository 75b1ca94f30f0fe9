use iso_library::error::{network_error, redact, AppError};

#[test]
fn messages_match_the_user_interface() {
    assert_eq!(AppError::InvalidDirectory.message(), "Répertoire invalide ou inaccessible");
    assert_eq!(AppError::ForbiddenPath("C:\\Windows".to_string()).message(), "Chemin interdit: C:\\Windows");
    assert_eq!(AppError::UnexpectedApiResponse(503).message(), "Réponse RAWG inattendue: code 503");
    assert_eq!(AppError::UnexpectedApiResponse(0).message(), "Réponse RAWG inattendue: code 0");
    assert_eq!(AppError::TooManyDirectories { max: 20 }.message(), "Trop de répertoires configurés (max 20)");
    assert_eq!(AppError::Database("disk full".to_string()).message(), "Erreur base de données: disk full");
    assert_eq!(AppError::Network("timeout".to_string()).message(), "Erreur réseau: timeout");
    assert_eq!(AppError::Serialization("bad".to_string()).message(), "Erreur de sérialisation: bad");
    assert_eq!(AppError::MissingApiKey.message(), "Clé API manquante - veuillez la configurer dans les paramètres");
    assert_eq!(AppError::InvalidApiKey.message(), "Clé API invalide (réponse 401 de RAWG)");
    assert_eq!(AppError::RateLimited.message(), "Limite de taux RAWG atteinte, réessayez dans quelques secondes");
    assert_eq!(AppError::QueryTooLong.message(), "Nom de jeu trop long pour la recherche");
}

#[test]
fn network_failure_masks_the_key() {
    let detail = "error sending request for url (https://api.rawg.io/api/games?key=abc123&search=x)";
    let e = network_error(detail, "abc123");
    assert_eq!(
        e,
        AppError::Network("error sending request for url (https://api.rawg.io/api/games?key=***&search=x)".to_string())
    );
    assert!(!e.message().contains("abc123"));
    assert_eq!(redact("aaaa", "aa"), "******");
    assert_eq!(redact("xkeyxkey", "key"), "x***x***");
    assert_eq!(redact("text", ""), "text");
}
