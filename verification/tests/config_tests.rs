use s3_stream_upload::config::{
    check_block_size, parse_destination, plan, token_count, ConfigError, Plan, MIN_BLOCK_SIZE,
};
use s3_stream_upload::pool::MAX_TOKENS;

#[test]
fn smallest_block_size() {
    assert_eq!(MIN_BLOCK_SIZE, 5 * 1024 * 1024);
    assert_eq!(check_block_size(4 * 1024 * 1024), Err(ConfigError::BlockTooSmall));
    assert_eq!(check_block_size(5_000_000), Err(ConfigError::BlockTooSmall));
    assert_eq!(check_block_size(MIN_BLOCK_SIZE), Ok(()));
    assert_eq!(check_block_size(MIN_BLOCK_SIZE - 1), Err(ConfigError::BlockTooSmall));
    assert_eq!(check_block_size(0), Err(ConfigError::BlockTooSmall));
    assert_eq!(check_block_size(32 * 1024 * 1024), Ok(()));
    assert_eq!(check_block_size(usize::MAX), Ok(()));
}

#[test]
fn destination_names_bucket_and_key() {
    assert_eq!(
        parse_destination("s3://bucket/key"),
        Ok(("bucket".to_string(), "key".to_string()))
    );
}

#[test]
fn key_keeps_its_slashes() {
    assert_eq!(
        parse_destination("s3://my-bucket/dir/sub/file.bin"),
        Ok(("my-bucket".to_string(), "dir/sub/file.bin".to_string()))
    );
    assert_eq!(parse_destination("s3://b//k"), Ok(("b".to_string(), "/k".to_string())));
}

#[test]
fn bucket_or_key_may_be_empty() {
    assert_eq!(parse_destination("s3://bucket/"), Ok(("bucket".to_string(), "".to_string())));
    assert_eq!(parse_destination("s3:///key"), Ok(("".to_string(), "key".to_string())));
    assert_eq!(parse_destination("s3:///"), Ok(("".to_string(), "".to_string())));
}

#[test]
fn destination_outside_ascii() {
    assert_eq!(
        parse_destination("s3://bücket/schlüssel/ä"),
        Ok(("bücket".to_string(), "schlüssel/ä".to_string()))
    );
}

#[test]
fn destination_without_scheme() {
    assert_eq!(parse_destination(""), Err(ConfigError::MissingScheme));
    assert_eq!(parse_destination("bucket/key"), Err(ConfigError::MissingScheme));
    assert_eq!(parse_destination("s3:/bucket/key"), Err(ConfigError::MissingScheme));
    assert_eq!(parse_destination("S3://bucket/key"), Err(ConfigError::MissingScheme));
    assert_eq!(parse_destination("s3:/"), Err(ConfigError::MissingScheme));
    assert_eq!(parse_destination("http://bucket/key"), Err(ConfigError::MissingScheme));
}

#[test]
fn destination_without_key() {
    assert_eq!(parse_destination("s3://"), Err(ConfigError::MissingKey));
    assert_eq!(parse_destination("s3://bucket"), Err(ConfigError::MissingKey));
}

#[test]
fn two_tokens_for_each_worker() {
    assert_eq!(token_count(6), Ok(12));
    assert_eq!(token_count(0), Ok(0));
    assert_eq!(token_count(1), Ok(2));
    assert_eq!(token_count(MAX_TOKENS / 2), Ok(MAX_TOKENS - 1));
    assert_eq!(token_count(MAX_TOKENS / 2 + 1), Err(ConfigError::TooManyWorkers));
    assert_eq!(token_count(usize::MAX), Err(ConfigError::TooManyWorkers));
}

#[test]
fn plan_of_the_defaults() {
    assert_eq!(
        plan("s3://bucket/key", 32 * 1024 * 1024, 6, 4),
        Ok(Plan {
            bucket: "bucket".to_string(),
            key: "key".to_string(),
            block_size: 32 * 1024 * 1024,
            num_tokens: 12,
            max_retries: 4,
        })
    );
}

#[test]
fn block_size_is_checked_before_the_destination() {
    assert_eq!(plan("nonsense", 1024, 6, 4), Err(ConfigError::BlockTooSmall));
    assert_eq!(plan("s3://b/k", 4194304, 6, 4), Err(ConfigError::BlockTooSmall));
    assert!(plan("s3://b/k", 5242880, 6, 4).is_ok());
    assert_eq!(plan("nonsense", MIN_BLOCK_SIZE, 6, 4), Err(ConfigError::MissingScheme));
    assert_eq!(plan("s3://bucket", MIN_BLOCK_SIZE, usize::MAX, 4), Err(ConfigError::MissingKey));
    assert_eq!(
        plan("s3://bucket/key", MIN_BLOCK_SIZE, usize::MAX, 4),
        Err(ConfigError::TooManyWorkers)
    );
}

#[test]
fn config_errors_in_words() {
    assert_eq!(
        ConfigError::BlockTooSmall.message(),
        "Part size too small, 5MB is the minimum"
    );
    assert_eq!(ConfigError::MissingScheme.message(), "S3 path has to start with 's3://'");
    assert_eq!(ConfigError::MissingKey.message(), "S3 path should be 's3://bucket/key'");
    assert!(!ConfigError::TooManyWorkers.message().is_empty());
}
