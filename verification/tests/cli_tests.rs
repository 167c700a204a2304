use scribe::cli::Cli;

#[test]
fn banner_lists_the_arguments() {
    let cli = Cli {
        db_path: "history.db".to_string(),
        file_in_git: "data/users.json".to_string(),
        primary_key: vec!["timestamp".to_string(), "server_id".to_string()],
        repo_path: ".".to_string(),
        verbose: 1,
        transform: None,
    };
    assert_eq!(
        cli.banner(),
        vec![
            "Scribe v1.0.0 - High-Performance Git History Database Extractor",
            "=============================================================",
            "Database: history.db",
            "File: data/users.json",
            "Primary key(s): timestamp, server_id",
            "Repository: .",
            "",
        ]
    );
}
