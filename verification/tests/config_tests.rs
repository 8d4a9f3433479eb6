use hyperfetch::cli::{config_from_cli, output_path, path_with_extension, Cli};
use hyperfetch::models::DownloadConfig;
use hyperfetch::utils::SizeError;
use hyperfetch::{DEFAULT_CHUNK_SIZE, MAX_CONNECTIONS};

fn cli(url: &str) -> Cli {
    Cli {
        url: url.to_string(),
        output: None,
        connections: 16,
        chunk_size: "1M".to_string(),
        user_agent: None,
        header: None,
        no_resume: false,
        no_adaptive: false,
        retries: 3,
        timeout: 30,
        quiet: false,
        verbose: false,
    }
}

#[test]
fn default_config() {
    let c = DownloadConfig::default();
    assert_eq!(c.max_connections, MAX_CONNECTIONS);
    assert_eq!(c.chunk_size, DEFAULT_CHUNK_SIZE);
    assert_eq!(c.user_agent, "RustDownloader/1.0");
    assert_eq!(c.retry_attempts, 3);
    assert_eq!(c.retry_delay_ms, 1000);
    assert!(c.adaptive_chunking && c.resume_support && c.connection_reuse && c.compression);
    let mut h = c.headers.pairs_vec().clone();
    h.sort();
    assert_eq!(
        h,
        vec![
            ("Accept".to_string(), "*/*".to_string()),
            ("Accept-Encoding".to_string(), "gzip, deflate, br".to_string()),
            ("Connection".to_string(), "keep-alive".to_string()),
        ]
    );
}

#[test]
fn config_follows_command_line() {
    let mut a = cli("https://example.com/x.bin");
    a.connections = 32;
    a.chunk_size = "8M".to_string();
    a.header = Some(vec!["Authorization: Bearer t".to_string()]);
    a.user_agent = Some("Hyperfetch/1.0".to_string());
    a.no_resume = true;
    a.no_adaptive = true;
    a.retries = 5;
    let c = config_from_cli(&a).unwrap();
    assert_eq!(c.max_connections, 32);
    assert_eq!(c.chunk_size, 8 * 1024 * 1024);
    assert_eq!(c.user_agent, "Hyperfetch/1.0");
    assert_eq!(c.retry_attempts, 5);
    assert_eq!(c.retry_delay_ms, 1000);
    assert!(!c.resume_support && !c.adaptive_chunking);
    assert_eq!(c.headers.pairs_vec(), &vec![("Authorization".to_string(), "Bearer t".to_string())]);
}

#[test]
fn config_without_headers_has_none() {
    let c = config_from_cli(&cli("https://example.com/x.bin")).unwrap();
    assert_eq!(c.headers.len(), 0);
    assert_eq!(c.user_agent, "RustDownloader/1.0");
    assert_eq!(c.chunk_size, 1048576);
}

#[test]
fn config_rejects_bad_chunk_size() {
    let mut a = cli("https://example.com/x.bin");
    a.chunk_size = "lots".to_string();
    assert_eq!(config_from_cli(&a).err(), Some(SizeError::InvalidNumber));
}

#[test]
fn output_path_from_url_or_option() {
    let mut a = cli("https://example.com/pub/file.iso");
    assert_eq!(output_path(&a), "file.iso");
    a.output = Some("/tmp/out.iso".to_string());
    assert_eq!(output_path(&a), "/tmp/out.iso");
}

#[test]
fn extension_appended_after_a_dot() {
    assert_eq!(path_with_extension("download", "zip"), "download.zip");
    assert_eq!(path_with_extension("archive.tar", "gz"), "archive.tar.gz");
}
