use miniredis::config::Config;

#[test]
fn test_default_args() {
    let config = Config::new(Vec::new());
    assert_eq!(config, Config::default());
}

#[test]
fn test_custom_args() {
    let my_dir = String::from("/tmp/my-data");
    let my_db_file = String::from("my_redis.rdb");
    let args = vec![
        String::from("--dir"),
        my_dir.clone(),
        String::from("--dbfilename"),
        my_db_file.clone(),
    ];

    let config = Config::new(args);
    assert_eq!(
        config,
        Config {
            dir: my_dir,
            dbfilename: my_db_file,
        }
    );
}

#[test]
fn test_partial_args() {
    let my_dir = String::from("/tmp/my-data-2");
    let config = Config::new(vec!["--dir".to_string(), my_dir.clone()]);

    assert_eq!(
        config,
        Config {
            dir: my_dir,
            ..Default::default()
        }
    )
}

#[test]
fn test_rbd_path_joins_dir_and_file() {
    let config = Config::new(vec![
        "--dir".to_string(),
        "/data".to_string(),
        "--dbfilename".to_string(),
        "snap.rdb".to_string(),
    ]);
    assert_eq!(config.rbd(), "/data/snap.rdb".to_string());
}

#[test]
fn test_flag_without_value_falls_back_to_default() {
    let config = Config::new(vec!["--dir".to_string()]);
    assert_eq!(config, Config::default());
}
