use file_compressor::lzw::compress_file;
use file_compressor::lzw::decompress_file;

#[test]
fn lzw_entry_points_succeed() {
    assert!(compress_file("sample.txt", "compressed").is_ok());
    assert!(decompress_file("compressed", "sample_restored.txt").is_ok());
}
