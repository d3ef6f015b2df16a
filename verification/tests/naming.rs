use image_cluster::paths::{
    files_to_fetch, get_filename, is_image, model_folder, name_images, select_images, NamedImage,
};
use image_cluster::settings::{
    log_directive, Args, EmbedMode, ImagePaths, ImagePathsError, LogSettings, PathKind,
};
use image_cluster::tables::{
    assemble_table_name, create_table_statement, existing_statement, get_table_name,
    insert_statement, mask, select_all_statement,
};
use image_cluster::text::{chars_of, decimal_text, is_text, text_of, to_ascii_lower};

fn strings(items: &[&str]) -> Vec<String> {
    items.iter().map(|s| s.to_string()).collect()
}

#[test]
fn table_names_are_identifiers() {
    assert_eq!(
        get_table_name(EmbedMode::OpenClip, "RuteNL/MobileCLIP2-S3-OpenCLIP-ONNX"),
        "results_openclip_rutenl_mobileclip2_s3_openclip_onnx"
    );
    assert_eq!(get_table_name(EmbedMode::LlamaCpp, ""), "results_llamacpp_");
    assert_eq!(get_table_name(EmbedMode::Ollama, "llava:7b"), "results_ollama_llava_7b");
}

#[test]
fn table_names_keep_foreign_letters_in_small_form() {
    assert_eq!(get_table_name(EmbedMode::Ollama, "ÄÖ ß²"), "results_ollama_äö_ß²");
    // One capital can have a small form of two characters.
    assert_eq!(get_table_name(EmbedMode::Ollama, "İ"), "results_ollama_i\u{307}");
}

#[test]
fn modes_have_their_own_tables() {
    let a = get_table_name(EmbedMode::OpenClip, "m");
    let b = get_table_name(EmbedMode::LlamaCpp, "m");
    let c = get_table_name(EmbedMode::Ollama, "m");
    assert!(a != b && b != c && a != c);
}

#[test]
fn names_are_masked_and_assembled() {
    assert_eq!(mask("a-b", &vec![true, false, false]), "a__");
    assert_eq!(assemble_table_name(EmbedMode::LlamaCpp, "x_y"), "results_llamacpp_x_y");
}

#[test]
fn statements_name_the_table() {
    assert_eq!(
        create_table_statement("t"),
        "
        CREATE TABLE IF NOT EXISTS t (
            id INTEGER PRIMARY KEY,
            filename TEXT UNIQUE,
            embedding BLOB
        );
    "
    );
    assert_eq!(select_all_statement("t"), "SELECT filename, embedding FROM t");
    assert_eq!(
        insert_statement("t"),
        "INSERT OR IGNORE INTO t (filename, embedding) VALUES (?, ?)"
    );
}

#[test]
fn query_quotes_each_name() {
    assert_eq!(
        existing_statement("t", &strings(&["a.png", "it's.jpg", "''"])),
        "SELECT filename FROM t WHERE filename IN ('a.png', 'it''s.jpg', '''''')"
    );
    assert_eq!(existing_statement("t", &vec![]), "SELECT filename FROM t WHERE filename IN ()");
}

#[test]
fn file_names_are_as_the_platform_sees_them() {
    for p in [
        "a.png", "/x/a.png", "x/./a.png", "x/a.png/", "x/a.png/.", "x//a.png//", "./a", "..", ".",
        "/", "", "x/..", "x/../b", "a..", "...", ".hidden", "/..", "é/ü.JPG",
    ] {
        let expected =
            std::path::Path::new(p).file_name().map(|n| n.to_string_lossy().to_string());
        match get_filename(p) {
            Ok(name) => assert_eq!(Some(name), expected, "{p:?}"),
            Err(e) => {
                assert_eq!(expected, None, "{p:?}");
                assert_eq!(e.path, p);
            }
        }
    }
}

#[test]
fn images_are_told_by_their_extension() {
    for p in ["a.jpg", "b.JPEG", "c.Png", "d.gif", "e.bmp", "f.webp", "x/g.tiff", "a.b.jpg", "x.png/"] {
        assert!(is_image(p), "{p}");
    }
    for p in ["a.tif", "jpg", ".jpg", "a.jpg.txt", "a.", "", "x.jpg/..", "a.jpgx", "x.png/b"] {
        assert!(!is_image(p), "{p}");
    }
    assert_eq!(
        select_images(&strings(&["b.png", "notes.txt", "a.JPG", "b.png"])),
        strings(&["b.png", "a.JPG", "b.png"])
    );
}

#[test]
fn images_are_named_or_refused() {
    let Ok(named) = name_images(&strings(&["x/a.png", "b.jpg"])) else { panic!("both have names") };
    let pairs: Vec<(&str, &str)> =
        named.iter().map(|n: &NamedImage| (n.path.as_str(), n.name.as_str())).collect();
    assert_eq!(pairs, vec![("x/a.png", "a.png"), ("b.jpg", "b.jpg")]);
    let Err(e) = name_images(&strings(&["x/a.png", "..", "/"])) else { panic!("no name") };
    assert_eq!(e.path, "..");
    assert_eq!(e.message("\"..\""), "Invalid path: \"..\"");
}

#[test]
fn files_in_the_cache_are_not_fetched() {
    let listing =
        vec![("a".to_string(), false), ("b".to_string(), true), ("c".to_string(), false)];
    assert_eq!(files_to_fetch(&listing), strings(&["a", "c"]));
    assert!(files_to_fetch(&vec![]).is_empty());
}

#[test]
fn models_that_differ_in_signs_share_a_table() {
    let of = |model| get_table_name(EmbedMode::Ollama, model);
    assert_eq!(of("Org/Model-1"), of("org_model:1"));
    assert_ne!(of("org/model1"), of("org/model-1"));
    assert_ne!(of("a"), of("b"));
}

#[test]
fn model_folders_join_the_components() {
    for p in ["org/model", "model", "/abs//x/", "./a/./b/..", ".", "", "/", "../up", ".hidden/x", "/./a"] {
        let expected = std::path::Path::new(p)
            .components()
            .map(|c| c.as_os_str().to_string_lossy())
            .collect::<Vec<_>>()
            .join("--");
        assert_eq!(model_folder(p), expected, "{p:?}");
    }
    assert_eq!(model_folder("org/model"), "org--model");
}

#[test]
fn paths_stand_for_files() {
    let one = ImagePaths::from_kind("a.png", PathKind::File);
    assert!(matches!(&one, Ok(p) if p.as_vec() == &strings(&["a.png"])));
    let entries = vec![
        ("d/a.png".to_string(), true),
        ("d/sub".to_string(), false),
        ("d/b.txt".to_string(), true),
    ];
    let Ok(several) = ImagePaths::from_kind("d", PathKind::Directory(entries)) else {
        panic!("a directory")
    };
    let args = Args { verbose: 2, db_path: "./output".to_string(), images: several.clone() };
    assert_eq!(args.images.into_vec(), strings(&["d/a.png", "d/b.txt"]));
    let locked = ImagePaths::from_kind("d", PathKind::Unreadable("denied".to_string()));
    let Err(locked) = locked else { panic!("not listed") };
    assert_eq!(locked.message("\"d\""), "denied");
    assert!(matches!(locked, ImagePathsError::Unreadable(why) if why == "denied"));
    let nothing = ImagePaths::from_kind("no", PathKind::Other);
    let Err(nothing) = nothing else { panic!("nothing there") };
    assert_eq!(nothing.message("\"no\""), "\"no\" is not a valid file or directory");
    assert!(matches!(nothing, ImagePathsError::NotFound(p) if p == "no"));
}

#[test]
fn verbosity_sets_the_log() {
    let expected = [
        ("warn", false, false),
        ("info", false, false),
        ("debug", true, false),
        ("trace", true, true),
        ("trace", true, true),
    ];
    for (verbose, &(level, ids, names)) in expected.iter().enumerate() {
        let s = LogSettings::new(verbose as u8);
        assert_eq!((s.level, s.thread_ids, s.thread_names), (level, ids, names));
    }
    assert_eq!(LogSettings::new(255).level, "trace");
    assert_eq!(log_directive("image-cluster", 1), "image_cluster=info");
    assert_eq!(log_directive("tool", 0), "tool=warn");
}

#[test]
fn texts_are_taken_apart_and_put_together() {
    let chars = chars_of("aé\u{1F600}");
    assert_eq!(chars, vec!['a', 'é', '\u{1F600}']);
    assert_eq!(text_of(&chars), "aé\u{1F600}");
    assert!(is_text(&"png".to_string(), "png"));
    assert!(!is_text(&"png".to_string(), "PNG"));
    assert_eq!(to_ascii_lower('Z'), 'z');
    assert_eq!(to_ascii_lower('É'), 'É');
    for n in [0usize, 9, 10, 1234567890, usize::MAX] {
        assert_eq!(decimal_text(n), n.to_string());
    }
}
