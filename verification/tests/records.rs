use flounder::config::Config;
use flounder::error::FlounderError;
use flounder::records::file::{
    file_errors, gemtext_path, has_room, ok_name, render_file, stored_name, text_name,
    upload_name, File, PartialFile, UploadError,
};
use flounder::records::person::{
    all_name_chars, parse_identity, signed_in, NewPerson, Person, RegisterForm,
};
use flounder::templates::sign_up_in_out::{BaseGmiTemplate, InTemplate, OutTemplate, UpTemplate};
use flounder::utils::{ok_extension, AsRoute};

fn file(user_path: &str) -> File {
    File {
        id: 1,
        user_path: user_path.to_string(),
        full_path: format!("files/guy/{}", user_path),
        user_id: 7,
        created_at: 0,
        updated_at: 0,
    }
}

fn person(username: &str, email: &str, password: &str, password2: &str) -> NewPerson {
    NewPerson::new(
        username.to_string(),
        email.to_string(),
        password.to_string(),
        password2.to_string(),
    )
}

#[test]
fn ok_extension_takes_the_accepted_extensions_in_either_case() {
    for name in [
        "a.gmi", "a.txt", "a.jpg", "a.jpeg", "a.gif", "a.png", "a.svg", "a.webp", "a.midi",
        "a.json", "a.csv", "a.gemini", "a.mp3", "A.GMI", "photo.JpEg", "a.b.txt",
    ] {
        assert!(File::ok_extension(name), "for {:?}", name);
        assert!(ok_extension(name), "for {:?}", name);
    }
}

#[test]
fn ok_extension_refuses_other_names() {
    for name in ["", "gmi", ".gmi", "a.exe", "a.gmi.exe", "a.gm", "a.gmix", "a.html", "a."] {
        assert!(!File::ok_extension(name), "for {:?}", name);
        assert!(!ok_extension(name), "for {:?}", name);
    }
}

#[test]
fn ok_name_is_exact_in_the_case_of_letters() {
    assert!(ok_name("a.gmi"));
    assert!(!ok_name("a.GMI"));
    assert!(text_name("a.csv"));
    assert!(!text_name("a.CSV"));
}

#[test]
fn text_extension_takes_the_extensions_of_text() {
    for name in ["a.gmi", "a.txt", "a.json", "a.csv", "a.gemini", "A.TXT"] {
        assert!(file(name).text_extension(), "for {:?}", name);
    }
    for name in ["a.jpg", "a.mp3", "a.midi", "txt", ".txt", "a.gm"] {
        assert!(!file(name).text_extension(), "for {:?}", name);
    }
}

#[test]
fn gemtext_path_takes_gmi_and_gemini_in_these_letters() {
    assert!(gemtext_path("files/guy/index.gmi"));
    assert!(gemtext_path("files/guy/a.gemini"));
    assert!(!gemtext_path("files/guy/a.GMI"));
    assert!(!gemtext_path("files/guy/a.txt"));
    assert!(!gemtext_path("files/guy.gmi/a"));
}

#[test]
fn has_room_below_the_most_files() {
    assert!(has_room(0));
    assert!(has_room(127));
    assert!(!has_room(128));
    assert!(!has_room(1000));
}

#[test]
fn file_route_is_the_name_after_a_slash() {
    assert_eq!(file("index.gmi").as_route(), "/index.gmi");
}

#[test]
fn person_route_is_the_name_under_person() {
    let guy = Person {
        id: 1,
        username: "guy".to_string(),
        password_hash: String::new(),
        created_at: 0,
    };
    assert_eq!(guy.as_route(), "/person/guy");
}

#[test]
fn text_is_its_own_route() {
    assert_eq!("/my_site".as_route(), "/my_site");
    assert_eq!("/my_site".to_string().as_route(), "/my_site");
}

#[test]
fn render_file_tells_how_long_ago() {
    let recent = PartialFile {
        username: "guy".to_string(),
        user_path: "index.gmi".to_string(),
        updated_at: 1000,
    };
    let rendered = render_file(&recent, 1000 + 3 * 3600 + 5);
    assert_eq!(rendered.username, "guy");
    assert_eq!(rendered.user_path, "index.gmi");
    assert_eq!(rendered.time_ago, "3 hours ago");
}

#[test]
fn validate_accepts_good_entries() {
    let errors = person("cool-guy7", "guy@example.com", "hunter22", "hunter22").validate();
    assert!(errors.is_empty());
}

#[test]
fn validate_gives_each_message_in_the_order_of_the_rules() {
    let errors = person("", "nobody", "abc", "abd").validate();
    assert_eq!(
        errors,
        vec![
            "Reserved name",
            "",
            "Passwords do not match",
            "OK can we maybe use a longer password"
        ]
    );
    let errors = person("bad name!", "a@b", "secret1", "secret1").validate();
    assert_eq!(errors, vec!["Username must only contain a-z, 0-9 or '-'"]);
}

#[test]
fn validate_keeps_names_back() {
    for name in ["www", "WWW", "Proxy", "proxy", "a-name-that-is-far-too-long-for-the-host"] {
        let errors = person(name, "a@b", "secret1", "secret1").validate();
        assert_eq!(errors, vec!["Reserved name"], "for {:?}", name);
    }
    let errors = person("a-name-of-thirty-two-characters-x", "a@b", "secret1", "secret1").validate();
    assert_eq!(errors, vec!["Reserved name"]);
    let errors = person("a-name-of-thirty-two-characters-", "a@b", "secret1", "secret1").validate();
    assert!(errors.is_empty());
}

#[test]
fn validate_refuses_letters_beyond_ascii() {
    let errors = person("caf\u{e9}", "a@b", "secret1", "secret1").validate();
    assert_eq!(errors, vec!["Username must only contain a-z, 0-9 or '-'"]);
}

#[test]
fn validate_counts_the_bytes_of_the_password() {
    let errors = person("guy", "a@b", "12345", "12345").validate();
    assert_eq!(errors, vec!["OK can we maybe use a longer password"]);
    let errors = person("guy", "a@b", "123456", "123456").validate();
    assert!(errors.is_empty());
    let errors = person("guy", "a@b", "\u{e9}\u{e9}\u{e9}", "\u{e9}\u{e9}\u{e9}").validate();
    assert!(errors.is_empty());
}

#[test]
fn validate_given_takes_the_lower_case_form_as_it_is() {
    let guy = person("guy", "a@b", "secret1", "secret1");
    assert_eq!(guy.validate_given("www"), vec!["Reserved name"]);
    assert!(guy.validate_given("WWW").is_empty());
    assert_eq!(guy.username(), "guy");
    assert_eq!(guy.email(), "a@b");
    assert_eq!(guy.password(), "secret1");
}

#[test]
fn all_name_chars_takes_letters_digits_and_hyphens() {
    assert!(all_name_chars("abc-XYZ-019"));
    assert!(all_name_chars(""));
    assert!(!all_name_chars("a b"));
    assert!(!all_name_chars("a_b"));
    assert!(!all_name_chars("a\u{e9}"));
}

#[test]
fn get_errors_gives_each_message_in_the_order_of_the_rules() {
    let form = RegisterForm {
        username: "PROXY".to_string(),
        email: "nobody".to_string(),
        password: "abc".to_string(),
        password2: "abd".to_string(),
    };
    assert_eq!(
        form.get_errors(),
        vec![
            "Invalid username",
            "Email is invalid",
            "Please use a password at least 6 characters long. Preferably longer.",
            "Passwords do not match"
        ]
    );
    let form = RegisterForm {
        username: "no spaces".to_string(),
        email: "a@b".to_string(),
        password: "secret1".to_string(),
        password2: "secret1".to_string(),
    };
    assert_eq!(
        form.get_errors(),
        vec!["Username must only contain a-z characters and hyphens"]
    );
    assert!(form.get_errors_given("x").len() == 1);
}

#[test]
fn parse_identity_takes_the_first_two_words() {
    assert_eq!(
        parse_identity("12 guy".to_string()),
        ("12".to_string(), "guy".to_string())
    );
    assert_eq!(
        parse_identity("  12\tguy  more ".to_string()),
        ("12".to_string(), "guy".to_string())
    );
}

#[test]
fn error_status_is_forbidden_or_internal() {
    assert_eq!(FlounderError::UnauthorizedError.status(), 403);
    assert_eq!(FlounderError::MiscError.status(), 500);
}

#[test]
fn templates_hold_what_they_are_made_of() {
    let config = Config {
        tide_secret: "s".to_string(),
        db_path: "db".to_string(),
        root_domain: "example.org".to_string(),
        server_name: "host".to_string(),
        file_directory: "files".to_string(),
        static_path: "static".to_string(),
    };
    let errors = ["one", "two"];
    let up = UpTemplate::new(&config, &errors);
    assert_eq!(up.errors, &errors);
    assert_eq!(up.config.server_name, "host");
    let inside = InTemplate::new(&config, Some("wrong password"));
    assert_eq!(inside.error, Some("wrong password"));
    assert_eq!(inside.config.root_domain, "example.org");
    let base = BaseGmiTemplate::new(&config);
    assert_eq!(base.config.file_directory, "files");
    let _out = OutTemplate::new();
}

#[test]
fn stored_name_takes_out_what_no_file_name_may_hold() {
    assert_eq!(stored_name("index.gmi"), "index.gmi");
    assert_eq!(stored_name("../../etc/passwd"), "....etcpasswd");
    assert_eq!(stored_name("a/b\\c:d*e?f\"g<h>i|j"), "abcdefghij");
    assert_eq!(stored_name("hello\u{0}\nworld"), "helloworld");
    assert_eq!(stored_name(".."), "");
    assert_eq!(stored_name(&"a".repeat(300)), "a".repeat(255));
    assert_eq!(stored_name("con.txt"), "con.txt");
}

#[test]
fn upload_name_is_the_stored_name_of_an_accepted_file() {
    assert_eq!(upload_name(Some("notes.TXT")), Ok("notes.TXT".to_string()));
    assert_eq!(upload_name(Some("a/b.gmi")), Ok("ab.gmi".to_string()));
}

#[test]
fn upload_name_refuses_uploads_without_a_name_or_with_another_extension() {
    assert_eq!(upload_name(None), Err(UploadError::NoFileName));
    assert_eq!(upload_name(Some("run.exe")), Err(UploadError::BadExtension));
    assert_eq!(upload_name(Some("")), Err(UploadError::BadExtension));
    assert_eq!(UploadError::NoFileName.message(), "no file name");
    assert_eq!(
        UploadError::BadExtension.message(),
        "We don't take that kind of file here"
    );
}

fn guy_with_hash(password_hash: String) -> Person {
    Person {
        id: 1,
        username: "guy".to_string(),
        password_hash,
        created_at: 0,
    }
}

#[test]
fn check_password_takes_the_right_password_only() {
    let guy = guy_with_hash(bcrypt::hash("hunter2", 4).unwrap());
    assert_eq!(guy.check_password("hunter2"), Ok(()));
    assert_eq!(
        guy.check_password("hunter3"),
        Err("wrong password".to_string())
    );
}

#[test]
fn check_password_tells_of_a_hash_that_cannot_be_read() {
    let guy = guy_with_hash("notahash".to_string());
    let error = guy.check_password("hunter2").unwrap_err();
    assert!(!error.is_empty());
    assert_ne!(error, "wrong password");
}

#[test]
fn signed_in_follows_what_the_test_gave() {
    assert_eq!(signed_in(Ok(true)), Ok(()));
    assert_eq!(signed_in(Ok(false)), Err("wrong password".to_string()));
    assert_eq!(signed_in(Err("broken".to_string())), Err("broken".to_string()));
}

#[test]
fn file_errors_tell_of_no_room_before_the_extension() {
    assert!(file_errors(0, "a.gmi").is_empty());
    assert!(file_errors(127, "dir/A.TXT").is_empty());
    assert_eq!(
        file_errors(128, "a.gmi"),
        vec!["You have the max number of files. Delete some to make room for more."]
    );
    assert_eq!(
        file_errors(500, "a.exe"),
        vec!["You have the max number of files. Delete some to make room for more."]
    );
    assert_eq!(file_errors(3, "a.exe"), vec!["Invalid file extension."]);
    assert!(file_errors(3, "a.gmi/").is_empty());
    assert_eq!(file_errors(3, ".gmi"), vec!["Invalid file extension."]);
}
