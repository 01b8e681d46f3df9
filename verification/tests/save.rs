use rmsh::save::{default_save_name, save_name_for_stem, IoEvent, MshSaveFormat};

#[test]
fn save_names_use_the_file_stem() {
    assert_eq!(default_save_name(Some("meshes/part.msh"), MshSaveFormat::V2), "part_v2.msh");
    assert_eq!(default_save_name(Some("archive.tar.gz"), MshSaveFormat::V4), "archive.tar_v4.msh");
    assert_eq!(default_save_name(None, MshSaveFormat::V4), "mesh_v4.msh");
    assert_eq!(default_save_name(Some(""), MshSaveFormat::V2), "mesh_v2.msh");
}

#[test]
fn save_names_from_stems() {
    assert_eq!(save_name_for_stem(Some("cube"), MshSaveFormat::V4), "cube_v4.msh");
    assert_eq!(save_name_for_stem(Some(""), MshSaveFormat::V2), "mesh_v2.msh");
    assert_eq!(save_name_for_stem(None, MshSaveFormat::V2), "mesh_v2.msh");
}

#[test]
fn io_events_carry_their_data() {
    let e = IoEvent::MeshLoaded { file_name: "a.msh".to_string(), data: vec![1, 2], path: None };
    match e {
        IoEvent::MeshLoaded { file_name, data, path } => {
            assert_eq!(file_name, "a.msh");
            assert_eq!(data, vec![1, 2]);
            assert!(path.is_none());
        }
        IoEvent::Error(_) => panic!("wrong variant"),
    }
}

#[test]
fn save_names_drop_directories_and_the_last_extension() {
    assert_eq!(default_save_name(Some("bracket.msh"), MshSaveFormat::V2), "bracket_v2.msh");
    assert_eq!(default_save_name(Some("models/part.step"), MshSaveFormat::V4), "part_v4.msh");
    assert_eq!(default_save_name(Some(".hidden"), MshSaveFormat::V2), ".hidden_v2.msh");
    assert_eq!(default_save_name(Some("file."), MshSaveFormat::V2), "file_v2.msh");
    assert_eq!(default_save_name(Some("noext"), MshSaveFormat::V4), "noext_v4.msh");
}
