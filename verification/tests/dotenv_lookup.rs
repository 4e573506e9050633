use clawyer::dotenv::{read_dotenv_value, read_optional_dotenv_value};
use clawyer::error::ClawyerError;

#[test]
fn dotenv_value_is_trimmed_and_unquoted() {
    let content = "# comment\n\nOTHER=1\n  OPENCLAW_GATEWAY_TOKEN = \"secret\" \nOPENCLAW_IMAGE='img:tag'\n";
    assert_eq!(
        read_optional_dotenv_value(content, "OPENCLAW_GATEWAY_TOKEN").as_deref(),
        Some("secret")
    );
    assert_eq!(read_optional_dotenv_value(content, "OPENCLAW_IMAGE").as_deref(), Some("img:tag"));
    assert_eq!(read_optional_dotenv_value(content, "MISSING"), None);
}

#[test]
fn dotenv_first_entry_wins_and_comments_do_not_count() {
    let content = "#KEY=commented\nKEY=first\nKEY=second\n";
    assert_eq!(read_optional_dotenv_value(content, "KEY").as_deref(), Some("first"));
    assert_eq!(read_optional_dotenv_value("KEY\nKEY=x=y\n", "KEY").as_deref(), Some("x=y"));
    assert_eq!(read_optional_dotenv_value("KEY=\"'both'\"", "KEY").as_deref(), Some("both"));
    assert_eq!(read_optional_dotenv_value("KEY='\"mixed\"'", "KEY").as_deref(), Some("\"mixed\""));
    assert_eq!(read_optional_dotenv_value("KEY=\r\n", "KEY").as_deref(), Some(""));
}

#[test]
fn dotenv_missing_key_or_file_is_an_error() {
    let missing = ClawyerError::MissingDotenvKey {
        key: "OPENCLAW_GATEWAY_TOKEN".to_string(),
        path: "/repo/.env".to_string(),
    };
    assert_eq!(
        read_dotenv_value(Some("A=1\n"), "/repo/.env", "OPENCLAW_GATEWAY_TOKEN"),
        Err(missing.clone())
    );
    assert_eq!(read_dotenv_value(None, "/repo/.env", "OPENCLAW_GATEWAY_TOKEN"), Err(missing));
    assert_eq!(
        read_dotenv_value(Some("OPENCLAW_GATEWAY_TOKEN=abc"), "/repo/.env", "OPENCLAW_GATEWAY_TOKEN"),
        Ok("abc".to_string())
    );
}
