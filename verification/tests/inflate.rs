use image_decode::checksum::{adler32_of, CrcTable};
use image_decode::error::DecodeErrorKind;
use image_decode::inflate::zlib_decode;

#[test]
fn zlib_stored_block() {
    let stream: Vec<u8> = vec![120, 1, 1, 20, 0, 235, 255, 104, 101, 108, 108, 111, 44, 32, 115, 116, 111, 114, 101, 100, 32, 98, 108, 111, 99, 107, 33, 78, 12, 7, 62];
    let plain: Vec<u8> = vec![104, 101, 108, 108, 111, 44, 32, 115, 116, 111, 114, 101, 100, 32, 98, 108, 111, 99, 107, 33];
    assert_eq!(zlib_decode(&stream, plain.len()), Ok(plain.clone()));
    assert_eq!(zlib_decode(&stream, plain.len() - 1), Err(DecodeErrorKind::MalformedHeader));
    assert_eq!(zlib_decode(&stream[..stream.len() - 1], plain.len()), Err(DecodeErrorKind::TruncatedData));
    let mut bad = stream.clone();
    let last = bad.len() - 1;
    bad[last] ^= 1;
    assert_eq!(zlib_decode(&bad, plain.len()), Err(DecodeErrorKind::ChecksumMismatch));
}

#[test]
fn zlib_fixed_block() {
    let stream: Vec<u8> = vec![120, 218, 75, 76, 74, 78, 68, 69, 10, 25, 169, 57, 57, 249, 200, 36, 0, 249, 243, 13, 129];
    let plain: Vec<u8> = vec![97, 98, 99, 97, 98, 99, 97, 98, 99, 97, 98, 99, 97, 98, 99, 97, 98, 99, 32, 104, 101, 108, 108, 111, 32, 104, 101, 108, 108, 111, 32, 104, 101, 108, 108, 111];
    assert_eq!(zlib_decode(&stream, plain.len()), Ok(plain.clone()));
    assert_eq!(zlib_decode(&stream, plain.len() - 1), Err(DecodeErrorKind::MalformedHeader));
    assert_eq!(zlib_decode(&stream[..stream.len() - 1], plain.len()), Err(DecodeErrorKind::TruncatedData));
    let mut bad = stream.clone();
    let last = bad.len() - 1;
    bad[last] ^= 1;
    assert_eq!(zlib_decode(&bad, plain.len()), Err(DecodeErrorKind::ChecksumMismatch));
}

#[test]
fn zlib_dynamic_block() {
    let stream: Vec<u8> = vec![120, 218, 237, 151, 81, 142, 85, 71, 12, 68, 219, 118, 187, 189, 46, 34, 132, 18, 69, 40, 17, 66, 217, 255, 82, 56, 199, 179, 5, 242, 55, 35, 230, 193, 189, 175, 219, 109, 87, 149, 203, 205, 151, 63, 255, 249, 239, 219, 247, 159, 95, 255, 254, 241, 199, 95, 255, 126, 249, 124, 248, 124, 248, 61, 15, 157, 239, 68, 244, 169, 19, 239, 69, 5, 79, 117, 30, 143, 121, 95, 198, 205, 168, 142, 56, 53, 175, 103, 250, 86, 86, 220, 233, 185, 17, 47, 59, 135, 213, 221, 124, 19, 188, 141, 115, 231, 190, 62, 211, 25, 115, 234, 102, 189, 55, 193, 154, 155, 143, 247, 175, 50, 50, 171, 206, 228, 189, 39, 95, 119, 158, 121, 252, 4, 81, 42, 106, 146, 44, 226, 236, 103, 189, 188, 132, 141, 24, 126, 110, 240, 238, 78, 158, 98, 199, 141, 219, 217, 213, 85, 245, 170, 166, 143, 135, 86, 79, 119, 24, 131, 47, 134, 4, 200, 142, 120, 175, 227, 205, 227, 208, 60, 57, 73, 90, 121, 78, 36, 219, 206, 45, 246, 80, 223, 233, 121, 188, 37, 54, 139, 40, 128, 35, 79, 213, 61, 228, 31, 211, 117, 103, 88, 72, 32, 226, 16, 31, 120, 200, 165, 243, 230, 128, 211, 100, 229, 179, 44, 142, 110, 118, 206, 121, 13, 44, 5, 20, 148, 183, 53, 115, 102, 88, 42, 31, 113, 249, 230, 18, 183, 129, 131, 114, 147, 247, 117, 201, 3, 52, 250, 220, 115, 128, 184, 198, 124, 111, 81, 4, 185, 159, 100, 19, 41, 6, 111, 46, 41, 230, 157, 3, 40, 109, 246, 0, 209, 224, 198, 82, 3, 195, 224, 59, 196, 226, 31, 77, 184, 60, 207, 19, 206, 73, 235, 55, 48, 219, 3, 44, 193, 14, 216, 102, 220, 105, 10, 125, 89, 11, 92, 164, 54, 151, 90, 199, 250, 56, 100, 248, 30, 148, 130, 36, 41, 54, 218, 45, 100, 51, 203, 100, 191, 45, 151, 227, 73, 228, 182, 162, 161, 36, 120, 57, 16, 14, 205, 213, 100, 195, 233, 224, 67, 194, 160, 10, 42, 252, 60, 42, 149, 10, 57, 26, 81, 47, 19, 32, 54, 154, 58, 136, 160, 30, 48, 12, 231, 129, 146, 186, 33, 36, 117, 0, 42, 37, 128, 118, 177, 115, 44, 137, 67, 17, 38, 213, 176, 138, 157, 178, 79, 126, 224, 192, 6, 85, 234, 123, 53, 208, 50, 115, 172, 12, 6, 253, 160, 178, 44, 235, 88, 109, 63, 66, 201, 41, 57, 84, 82, 50, 106, 68, 127, 130, 105, 97, 164, 252, 226, 32, 38, 254, 52, 188, 150, 0, 171, 239, 66, 237, 210, 69, 73, 72, 181, 66, 72, 40, 20, 253, 80, 60, 75, 21, 9, 178, 15, 123, 128, 36, 229, 156, 244, 21, 10, 53, 8, 3, 27, 73, 134, 226, 19, 18, 101, 182, 148, 218, 17, 19, 163, 35, 190, 160, 171, 8, 14, 205, 54, 8, 204, 151, 181, 64, 3, 141, 131, 62, 104, 187, 80, 90, 32, 74, 26, 239, 157, 6, 45, 170, 247, 56, 217, 79, 11, 35, 6, 228, 2, 25, 167, 151, 28, 247, 1, 251, 178, 39, 118, 105, 135, 125, 120, 148, 7, 145, 8, 128, 122, 217, 8, 208, 252, 13, 134, 160, 194, 26, 164, 67, 227, 133, 106, 66, 214, 100, 5, 55, 68, 181, 21, 175, 168, 54, 166, 145, 54, 42, 191, 219, 58, 87, 220, 232, 78, 182, 22, 136, 80, 45, 148, 192, 150, 90, 30, 206, 227, 68, 213, 244, 196, 202, 76, 137, 169, 198, 100, 142, 4, 216, 194, 15, 240, 165, 208, 210, 166, 134, 69, 185, 71, 23, 153, 213, 5, 176, 160, 180, 167, 212, 233, 48, 64, 108, 201, 86, 37, 112, 68, 29, 177, 29, 110, 139, 18, 201, 48, 156, 6, 100, 136, 30, 233, 232, 80, 200, 143, 22, 226, 64, 9, 132, 175, 11, 175, 160, 133, 91, 225, 116, 79, 180, 173, 67, 175, 184, 198, 71, 18, 168, 174, 87, 228, 34, 13, 232, 41, 136, 82, 3, 195, 88, 19, 41, 32, 62, 250, 72, 250, 249, 213, 32, 212, 0, 22, 7, 176, 171, 82, 147, 83, 253, 26, 234, 145, 44, 124, 208, 166, 136, 173, 208, 228, 113, 82, 164, 174, 188, 136, 0, 118, 99, 123, 129, 7, 153, 129, 34, 28, 107, 205, 108, 160, 189, 202, 247, 219, 68, 80, 4, 35, 154, 212, 26, 13, 98, 160, 52, 123, 187, 61, 135, 79, 193, 71, 115, 80, 109, 174, 165, 153, 179, 45, 180, 106, 172, 152, 99, 229, 218, 98, 40, 97, 240, 116, 106, 116, 15, 170, 80, 12, 172, 167, 59, 41, 78, 231, 190, 118, 186, 57, 211, 89, 219, 178, 180, 10, 105, 61, 104, 167, 231, 200, 95, 113, 162, 75, 176, 60, 28, 127, 197, 178, 109, 25, 19, 31, 21, 164, 168, 100, 216, 90, 104, 10, 243, 93, 28, 73, 138, 195, 37, 94, 159, 163, 30, 89, 65, 27, 228, 143, 7, 204, 54, 90, 139, 92, 233, 17, 179, 196, 61, 187, 13, 9, 146, 232, 211, 172, 213, 184, 248, 217, 124, 87, 58, 180, 22, 105, 70, 236, 44, 130, 80, 234, 234, 109, 88, 125, 0, 247, 195, 124, 181, 216, 56, 43, 188, 176, 83, 21, 10, 125, 204, 92, 33, 186, 48, 64, 152, 251, 74, 55, 108, 253, 64, 211, 178, 4, 148, 156, 219, 165, 142, 74, 190, 18, 18, 246, 237, 136, 81, 236, 43, 125, 80, 224, 53, 177, 83, 251, 5, 249, 222, 94, 127, 31, 201, 107, 15, 32, 144, 107, 149, 212, 146, 142, 213, 176, 193, 176, 80, 7, 49, 40, 56, 79, 245, 80, 136, 62, 230, 15, 111, 235, 173, 248, 24, 82, 58, 31, 150, 8, 58, 12, 203, 171, 127, 80, 126, 238, 151, 204, 160, 208, 94, 193, 60, 151, 37, 213, 84, 250, 225, 49, 79, 62, 157, 167, 120, 134, 227, 107, 172, 116, 167, 211, 89, 187, 36, 241, 48, 10, 213, 229, 71, 163, 209, 234, 236, 158, 165, 201, 177, 171, 229, 172, 215, 57, 188, 214, 33, 16, 128, 198, 183, 19, 221, 1, 114, 69, 214, 169, 142, 79, 105, 127, 144, 216, 122, 128, 124, 58, 23, 159, 46, 90, 102, 178, 246, 13, 100, 236, 167, 192, 163, 91, 202, 154, 204, 147, 36, 179, 206, 251, 199, 250, 11, 231, 210, 207, 106, 234, 232, 0, 234, 110, 13, 105, 71, 138, 45, 239, 136, 218, 196, 174, 40, 56, 179, 120, 46, 37, 136, 28, 24, 67, 14, 151, 7, 166, 229, 164, 121, 54, 60, 239, 36, 195, 113, 198, 169, 186, 167, 6, 121, 205, 235, 26, 73, 175, 72, 109, 169, 215, 98, 193, 161, 52, 62, 87, 165, 61, 132, 42, 215, 85, 81, 14, 182, 228, 112, 47, 135, 126, 191, 29, 193, 96, 14, 43, 58, 173, 236, 31, 231, 142, 95, 59, 39, 246, 146, 20, 142, 43, 186, 197, 41, 192, 55, 228, 48, 218, 144, 18, 83, 221, 202, 32, 119, 200, 242, 48, 179, 183, 166, 94, 151, 129, 91, 152, 229, 56, 16, 115, 254, 45, 69, 145, 123, 59, 3, 10, 135, 4, 86, 1, 130, 5, 166, 177, 183, 2, 93, 21, 98, 63, 160, 20, 250, 116, 232, 42, 51, 80, 34, 91, 45, 194, 14, 117, 0, 176, 235, 172, 159, 239, 0, 72, 10, 66, 172, 170, 75, 58, 201, 247, 238, 21, 131, 190, 168, 217, 41, 65, 4, 10, 71, 190, 101, 253, 163, 195, 132, 29, 22, 242, 191, 107, 20, 86, 239, 45, 132, 193, 21, 118, 14, 131, 131, 197, 78, 86, 45, 134, 182, 188, 123, 107, 11, 111, 41, 118, 54, 231, 211, 125, 71, 131, 221, 11, 219, 108, 193, 36, 238, 205, 137, 74, 181, 34, 5, 67, 211, 149, 57, 66, 172, 194, 245, 218, 40, 19, 214, 105, 171, 120, 75, 97, 13, 229, 106, 4, 94, 41, 176, 40, 167, 82, 172, 63, 140, 55, 168, 222, 187, 40, 104, 212, 218, 72, 168, 21, 175, 195, 59, 121, 169, 178, 149, 109, 235, 91, 34, 176, 89, 81, 144, 77, 162, 64, 218, 201, 236, 53, 113, 175, 33, 136, 251, 232, 5, 206, 255, 116, 132, 137, 57, 74, 96, 168, 86, 47, 31, 40, 149, 172, 214, 202, 86, 198, 222, 244, 48, 6, 96, 83, 204, 120, 53, 167, 237, 68, 225, 96, 8, 7, 7, 202, 247, 46, 217, 94, 163, 109, 14, 129, 247, 22, 244, 226, 243, 127, 47, 159, 15, 255, 199, 195, 47, 187, 68, 136, 144];
    let plain: Vec<u8> = expected_zlib_dynamic_block();
    assert_eq!(zlib_decode(&stream, plain.len()), Ok(plain.clone()));
    assert_eq!(zlib_decode(&stream, plain.len() - 1), Err(DecodeErrorKind::MalformedHeader));
    assert_eq!(zlib_decode(&stream[..stream.len() - 1], plain.len()), Err(DecodeErrorKind::TruncatedData));
    let mut bad = stream.clone();
    let last = bad.len() - 1;
    bad[last] ^= 1;
    assert_eq!(zlib_decode(&bad, plain.len()), Err(DecodeErrorKind::ChecksumMismatch));
}

fn expected_zlib_dynamic_block() -> Vec<u8> {
    vec![65, 72, 79, 86, 70, 77, 84, 68, 75, 82, 66, 73, 80, 65, 72, 79, 86, 70, 77, 84, 68, 75, 82, 66, 73, 80, 65, 72, 79, 86, 70, 77, 84, 68, 75, 82, 66, 73, 80, 65, 72, 79, 86, 70, 77, 84, 68, 75, 82, 66, 73, 80, 65, 72, 79, 86, 70, 77, 84, 68, 75, 82, 66, 73, 80, 65, 72, 79, 86, 70, 77, 84, 68, 75, 82, 66, 73, 80, 65, 72, 79, 86, 70, 77, 84, 68, 75, 82, 66, 73, 80, 65, 72, 79, 86, 70, 77, 84, 68, 75, 82, 66, 73, 80, 65, 72, 79, 86, 70, 77, 84, 68, 75, 82, 66, 73, 80, 65, 72, 79, 86, 70, 77, 84, 68, 75, 82, 66, 73, 80, 65, 72, 79, 86, 70, 77, 84, 68, 75, 82, 66, 73, 80, 65, 72, 79, 86, 70, 77, 84, 68, 75, 82, 66, 73, 80, 65, 72, 79, 86, 70, 77, 84, 68, 75, 82, 66, 73, 80, 65, 72, 79, 86, 70, 77, 84, 68, 75, 82, 66, 73, 80, 65, 72, 79, 86, 70, 77, 84, 68, 75, 82, 66, 73, 80, 65, 72, 79, 86, 70, 77, 84, 68, 75, 82, 66, 73, 80, 65, 72, 79, 86, 70, 77, 84, 68, 75, 82, 66, 73, 80, 65, 72, 79, 86, 70, 77, 84, 68, 75, 82, 66, 73, 80, 65, 72, 79, 86, 70, 77, 84, 68, 75, 82, 66, 73, 80, 65, 72, 79, 86, 70, 77, 84, 68, 75, 82, 66, 73, 80, 65, 72, 79, 86, 70, 77, 84, 68, 75, 82, 66, 73, 80, 65, 72, 79, 86, 70, 77, 84, 68, 75, 82, 66, 73, 80, 65, 72, 79, 86, 70, 77, 84, 68, 75, 82, 66, 73, 80, 65, 72, 79, 86, 70, 77, 84, 68, 75, 82, 66, 73, 80, 65, 72, 79, 86, 70, 77, 84, 68, 75, 82, 66, 73, 80, 65, 72, 79, 86, 70, 77, 84, 68, 75, 82, 66, 73, 80, 65, 72, 79, 86, 70, 77, 84, 68, 75, 82, 66, 73, 80, 65, 72, 79, 86, 70, 77, 84, 68, 75, 82, 66, 73, 80, 65, 72, 79, 86, 70, 77, 84, 68, 75, 82, 66, 73, 80, 65, 72, 79, 86, 70, 77, 84, 68, 75, 82, 66, 73, 80, 65, 72, 79, 86, 70, 77, 84, 68, 75, 82, 66, 73, 80, 65, 72, 79, 86, 70, 77, 84, 68, 75, 82, 66, 73, 80, 65, 72, 79, 86, 70, 77, 84, 68, 75, 82, 66, 73, 80, 65, 72, 79, 86, 70, 77, 84, 68, 75, 82, 66, 73, 80, 65, 72, 79, 86, 70, 77, 84, 68, 75, 82, 66, 73, 80, 65, 72, 79, 86, 70, 77, 84, 68, 75, 82, 66, 73, 80, 65, 72, 79, 86, 70, 77, 84, 68, 75, 82, 66, 73, 80, 65, 72, 79, 86, 70, 77, 84, 68, 75, 82, 66, 73, 80, 65, 72, 79, 86, 70, 77, 84, 68, 75, 82, 66, 73, 80, 65, 72, 79, 86, 70, 77, 84, 68, 75, 82, 66, 73, 80, 65, 72, 79, 86, 70, 77, 84, 68, 75, 82, 66, 73, 80, 65, 72, 79, 86, 70, 77, 84, 68, 75, 82, 66, 73, 80, 65, 72, 79, 86, 70, 77, 84, 68, 75, 82, 66, 73, 80, 65, 72, 79, 86, 70, 77, 84, 68, 75, 82, 66, 73, 80, 65, 72, 79, 86, 70, 77, 84, 68, 75, 82, 66, 73, 80, 65, 72, 79, 86, 70, 77, 84, 68, 75, 82, 66, 73, 80, 65, 72, 5, 2, 6, 0, 1, 1, 5, 0, 3, 0, 1, 6, 6, 1, 3, 1, 6, 0, 1, 3, 0, 6, 0, 3, 0, 2, 4, 6, 2, 1, 4, 2, 1, 3, 5, 1, 1, 0, 3, 7, 6, 5, 7, 7, 5, 4, 3, 2, 3, 1, 4, 7, 5, 7, 4, 1, 1, 6, 2, 5, 2, 7, 6, 0, 1, 5, 5, 5, 7, 7, 1, 1, 4, 7, 1, 0, 4, 7, 4, 6, 5, 0, 7, 5, 2, 1, 7, 0, 3, 4, 2, 3, 6, 6, 7, 1, 2, 7, 6, 4, 2, 6, 4, 6, 5, 6, 3, 2, 1, 2, 2, 3, 3, 0, 7, 2, 4, 4, 0, 2, 6, 5, 5, 2, 0, 7, 6, 6, 6, 6, 1, 7, 6, 0, 3, 1, 3, 7, 2, 1, 5, 0, 1, 0, 2, 1, 5, 0, 1, 3, 6, 2, 4, 5, 5, 7, 1, 1, 7, 7, 7, 7, 4, 1, 2, 1, 5, 4, 7, 2, 0, 3, 5, 2, 0, 4, 1, 4, 5, 2, 5, 3, 5, 3, 3, 3, 6, 3, 3, 7, 5, 0, 0, 4, 7, 4, 3, 5, 7, 5, 5, 1, 3, 1, 3, 7, 3, 5, 3, 7, 0, 7, 5, 1, 1, 6, 3, 7, 2, 6, 5, 1, 6, 7, 6, 1, 2, 2, 2, 0, 2, 7, 2, 7, 5, 2, 2, 0, 0, 1, 2, 6, 3, 3, 0, 4, 3, 4, 3, 5, 4, 6, 2, 0, 5, 7, 6, 2, 2, 0, 7, 2, 0, 2, 2, 2, 7, 1, 0, 5, 7, 1, 0, 3, 3, 4, 0, 1, 7, 0, 1, 7, 5, 3, 4, 7, 7, 3, 4, 3, 7, 2, 6, 1, 6, 7, 5, 1, 3, 6, 1, 3, 4, 1, 2, 5, 2, 4, 2, 7, 3, 1, 6, 7, 2, 3, 2, 6, 6, 5, 6, 3, 5, 5, 1, 5, 0, 5, 7, 7, 0, 6, 5, 4, 1, 1, 3, 1, 1, 4, 4, 0, 2, 4, 2, 6, 4, 6, 2, 7, 5, 1, 4, 0, 2, 6, 1, 4, 0, 1, 4, 1, 3, 1, 4, 1, 7, 0, 5, 6, 4, 2, 0, 3, 1, 2, 4, 0, 2, 3, 4, 4, 3, 4, 7, 2, 4, 5, 0, 4, 0, 0, 0, 3, 7, 3, 7, 1, 6, 7, 6, 4, 3, 3, 5, 3, 2, 6, 5, 0, 2, 0, 1, 4, 6, 2, 0, 1, 6, 4, 3, 4, 0, 7, 2, 2, 4, 7, 0, 4, 5, 5, 5, 3, 0, 4, 3, 5, 2, 0, 5, 6, 1, 7, 4, 3, 3, 0, 1, 4, 1, 2, 6, 0, 6, 0, 4, 4, 3, 1, 2, 6, 5, 7, 2, 4, 2, 0, 6, 2, 0, 3, 1, 0, 0, 2, 5, 1, 6, 7, 0, 0, 3, 7, 4, 0, 7, 1, 1, 1, 7, 4, 1, 4, 3, 3, 3, 7, 7, 6, 1, 7, 4, 0, 3, 1, 2, 5, 4, 4, 2, 0, 7, 0, 7, 4, 1, 3, 7, 4, 4, 7, 7, 7, 1, 3, 4, 1, 7, 0, 4, 7, 1, 7, 4, 6, 3, 3, 1, 1, 2, 4, 5, 2, 4, 1, 5, 3, 7, 7, 6, 0, 2, 0, 7, 7, 6, 4, 2, 6, 5, 6, 5, 1, 5, 0, 5, 5, 6, 1, 3, 0, 4, 4, 5, 1, 6, 6, 1, 5, 6, 4, 0, 4, 1, 0, 4, 2, 3, 4, 6, 5, 3, 5, 6, 0, 6, 3, 1, 0, 6, 7, 2, 4, 7, 0, 2, 2, 7, 6, 5, 4, 4, 4, 4, 6, 3, 4, 7, 6, 1, 2, 2, 1, 3, 7, 3, 7, 5, 7, 6, 2, 3, 3, 1, 2, 5, 1, 5, 3, 5, 4, 3, 0, 6, 6, 6, 3, 6, 4, 5, 0, 7, 4, 5, 2, 3, 1, 4, 3, 6, 6, 7, 6, 4, 0, 2, 0, 6, 7, 7, 0, 1, 6, 7, 7, 3, 1, 3, 2, 2, 1, 7, 1, 0, 0, 2, 3, 0, 4, 2, 4, 6, 1, 1, 1, 4, 3, 6, 4, 3, 0, 0, 4, 7, 4, 5, 3, 7, 3, 3, 0, 6, 4, 0, 0, 3, 7, 6, 1, 4, 3, 6, 5, 3, 7, 0, 5, 6, 5, 6, 3, 0, 4, 1, 3, 7, 3, 4, 3, 3, 7, 3, 4, 4, 1, 7, 2, 3, 7, 6, 0, 2, 6, 0, 3, 0, 2, 6, 0, 0, 2, 6, 7, 5, 1, 1, 2, 5, 3, 2, 7, 0, 4, 6, 5, 5, 7, 2, 1, 0, 1, 4, 1, 5, 6, 1, 3, 6, 5, 4, 6, 1, 0, 7, 3, 5, 7, 3, 5, 5, 7, 0, 6, 3, 6, 0, 6, 0, 7, 1, 0, 4, 3, 1, 5, 5, 4, 5, 0, 4, 5, 4, 4, 0, 1, 0, 3, 1, 7, 7, 6, 4, 6, 7, 2, 7, 2, 0, 4, 2, 3, 5, 5, 7, 5, 1, 3, 6, 2, 3, 6, 1, 0, 7, 5, 2, 6, 1, 1, 4, 1, 3, 1, 6, 7, 7, 2, 3, 2, 6, 7, 3, 1, 4, 4, 4, 4, 5, 4, 4, 3, 7, 3, 2, 3, 3, 2, 4, 3, 5, 1, 6, 4, 3, 3, 1, 7, 0, 1, 0, 7, 3, 7, 5, 0, 4, 3, 1, 0, 3, 3, 1, 5, 2, 7, 4, 0, 1, 5, 3, 0, 5, 5, 2, 0, 3, 4, 0, 3, 0, 5, 6, 5, 2, 4, 1, 3, 0, 7, 7, 1, 6, 1, 6, 2, 1, 2, 6, 4, 6, 4, 4, 6, 0, 4, 5, 6, 6, 0, 5, 3, 6, 6, 3, 0, 6, 2, 6, 1, 1, 6, 5, 7, 2, 2, 0, 0, 2, 6, 1, 5, 2, 2, 5, 4, 2, 2, 1, 1, 6, 7, 3, 4, 2, 0, 7, 5, 0, 6, 1, 2, 3, 6, 3, 7, 2, 3, 0, 6, 2, 6, 5, 1, 2, 3, 3, 0, 0, 5, 1, 6, 7, 4, 6, 4, 3, 6, 6, 5, 7, 7, 2, 0, 0, 7, 7, 3, 7, 7, 2, 7, 6, 1, 1, 2, 5, 6, 5, 1, 7, 0, 0, 2, 1, 5, 1, 0, 6, 2, 0, 1, 1, 3, 2, 7, 4, 2, 3, 1, 5, 4, 2, 5, 4, 7, 2, 4, 7, 3, 4, 3, 5, 5, 0, 3, 2, 6, 2, 4, 5, 6, 2, 4, 1, 0, 5, 7, 1, 4, 6, 5, 4, 6, 5, 2, 5, 5, 1, 7, 3, 2, 0, 4, 4, 4, 5, 0, 0, 3, 2, 4, 6, 6, 5, 0, 2, 7, 3, 0, 0, 0, 0, 5, 4, 1, 5, 3, 6, 4, 2, 3, 5, 7, 2, 2, 0, 3, 2, 7, 1, 1, 2, 4, 6, 4, 0, 0, 5, 7, 7, 3, 2, 0, 0, 0, 0, 6, 2, 3, 2, 0, 1, 0, 3, 2, 6, 3, 6, 2, 4, 1, 4, 0, 7, 0, 6, 6, 7, 1, 7, 2, 3, 1, 4, 3, 0, 1, 5, 4, 0, 4, 6, 4, 4, 3, 1, 0, 2, 4, 3, 3, 2, 5, 3, 6, 5, 3, 6, 7, 7, 0, 0, 6, 3, 4, 3, 6, 1, 2, 2, 0, 0, 1, 1, 2, 5, 2, 0, 0, 0, 2, 0, 1, 0, 1, 5, 3, 1, 6, 1, 3, 3, 3, 1, 0, 0, 1, 4, 7, 1, 2, 1, 3, 4, 5, 5, 6, 4, 0, 5, 4, 4, 0, 5, 5, 7, 4, 0, 6, 0, 6, 1, 5, 7, 0, 3, 1, 4, 2, 6, 0, 3, 4, 0, 0, 5, 7, 1, 7, 2, 7, 5, 4, 2, 4, 3, 3, 7, 2, 1, 1, 7, 1, 5, 5, 1, 6, 6, 1, 6, 0, 5, 3, 4, 4, 6, 2, 6, 3, 7, 2, 0, 5, 5, 2, 7, 5, 2, 7, 7, 4, 3, 2, 5, 7, 3, 3, 4, 4, 2, 2, 3, 5, 5, 2, 3, 5, 3, 4, 1, 2, 1, 3, 6, 2, 2, 4, 4, 6, 4, 3, 1, 1, 4, 3, 6, 7, 0, 0, 6, 6, 3, 4, 7, 0, 2, 4, 6, 0, 3, 6, 6, 3, 3, 2, 1, 7, 6, 5, 4, 1, 6, 3, 6, 2, 4, 6, 7, 7, 0, 6, 2, 5, 0, 6, 7, 1, 0, 4, 3, 2, 3, 5, 1, 7, 3, 7, 0, 5, 5, 6, 7, 3, 2, 6, 1, 5, 0, 4, 4, 6, 6, 0, 0, 1, 6, 6, 5, 4, 1, 3, 4, 6, 3, 6, 7, 3, 2, 2, 1, 3, 7, 3, 2, 5, 6, 7, 4, 2, 7, 5, 3, 4, 6, 4, 6, 2, 7, 0, 4, 5, 3, 4, 5, 7, 7, 6, 1, 5, 2, 4, 6, 0, 1, 5, 2, 5, 0, 0, 3, 1, 4, 4, 1, 2, 3, 2, 7, 5, 2, 3, 6, 2, 1, 4, 3, 7, 3, 1, 7, 1, 1, 4, 6, 3, 2, 7, 7, 0, 7, 7, 2, 7, 3, 7, 2, 0, 2, 5, 7, 7, 4, 7, 5, 6, 6, 1, 2, 5, 0, 0, 0, 5, 1, 7, 7, 2, 0, 3, 6, 2, 5, 1, 5, 5, 7, 3, 4, 6, 5, 6, 4, 0, 4, 4, 5, 7, 6, 5, 4, 5, 3, 7, 1, 5, 3, 5, 4, 2, 1, 0, 6, 6, 0, 6, 4, 1, 0, 0, 3, 7, 0, 6, 2, 1, 3, 0, 7, 2, 1, 2, 0, 6, 1, 0, 5, 2, 4, 4, 4, 2, 6, 0, 5, 0, 6, 0, 7, 0, 1, 6, 6, 7, 1, 0, 6, 2, 7, 6, 1, 1, 7, 3, 2, 0, 6, 0, 0, 1, 1, 3, 1, 2, 7, 0, 4, 3, 7, 2, 0, 5, 2, 1, 4, 7, 7, 4, 0, 0, 0, 0, 0, 1, 6, 4, 4, 2, 7, 0, 5, 5, 7, 7, 2, 2, 1, 5, 2, 6, 7, 6, 7, 4, 5, 4, 4, 0, 5, 0, 2, 4, 6, 3, 6, 6, 6, 3, 7, 4, 0, 5, 4, 4, 6, 2, 0, 4, 2, 2, 4, 7, 5, 1, 7, 6, 3, 3, 4, 0, 6, 7, 3, 4, 0, 6, 7, 1, 5, 1, 3, 6, 4, 5, 7, 3, 3, 3, 3, 1, 2, 4, 5, 5, 6, 2, 3, 0, 7, 5, 1, 5, 7, 1, 2, 5, 0, 5, 4, 0, 1, 0, 3, 7, 3, 4, 4, 6, 1, 7, 2, 4, 0, 5, 3, 2, 6, 1, 0, 0, 0, 5, 7, 7, 1, 6, 1, 1, 4, 5, 3, 1, 6, 2, 7, 2, 5, 3, 3, 2, 0, 4, 5, 0, 0, 0, 4, 7, 0, 1, 2, 5, 0, 3, 4, 7, 1, 7, 5, 5, 4, 6, 1, 5, 7, 6, 2, 7, 3, 2, 0, 7, 3, 0, 2, 3, 1, 5, 2, 7, 1, 6, 0, 1, 7, 5, 5, 3, 7, 1, 5, 2, 5, 3, 0, 2, 7, 2, 7, 2, 4, 6, 6, 3, 2, 0, 4, 4, 5, 2, 4, 7, 1, 5, 7, 7, 1, 2, 0, 3, 7, 4, 1, 4, 3, 5, 6, 4, 3, 3, 1, 6, 4, 6, 2, 0, 4, 2, 0, 7, 5, 2, 7, 0, 4, 2, 5, 6, 0, 6, 3, 4, 2, 2, 2, 3, 2, 3, 1, 1, 7, 4, 2, 3, 2, 3, 4, 3, 0, 1, 6, 0, 5, 5, 4, 7, 1, 0, 6, 7, 2, 4, 3, 2, 5, 0, 2, 5, 0, 5, 7, 1, 1, 5, 3, 5, 6, 0, 4, 1, 7, 7, 0, 2, 0, 3, 1, 3, 2, 2, 1, 4, 4, 0, 0, 1, 3, 4, 0, 7, 3, 7, 1, 5, 1, 2, 0, 4, 1, 7, 7, 4, 1, 1, 1, 6, 2, 3, 3, 2, 7, 6, 2, 0, 6, 6, 0, 6, 0, 5, 5, 6, 3, 5, 6, 5, 6, 0, 5, 2, 5, 3, 6, 0, 5, 1, 2, 1, 5, 6, 3, 0, 3, 2, 6, 6, 7, 0, 0, 0, 4, 4, 0, 1, 4, 1, 0, 6, 3, 0, 4, 1, 4, 5, 2, 1, 0, 4, 1, 7, 2, 7, 1, 2, 4, 6, 4, 4, 3, 1, 4, 7, 3, 6, 3, 5, 7, 4, 7, 7, 4, 0, 3, 5, 3, 3, 6, 6, 0, 5, 2, 3, 5, 5, 7, 4, 4, 3, 4, 0, 0, 2, 1, 5, 7, 0, 6, 7, 5, 1, 3, 2, 6, 5, 5, 2, 3, 4, 1, 7, 4, 2, 6, 1, 0, 6, 1, 7, 6, 2, 6, 4, 1, 6, 7, 7, 4, 5, 4, 5, 6, 6, 5, 0, 7, 6, 7, 4, 2, 4, 2, 6, 6, 3, 1, 5, 5, 3, 5, 3, 6, 0, 0, 0, 4, 7, 4, 4, 6, 6, 6, 7, 5, 0, 5, 7, 0, 1, 3, 1, 6, 5, 6, 2, 3, 6, 7, 6, 7, 5, 1, 2, 5, 5, 5, 1, 4, 2, 1, 4, 5, 6, 2, 4, 3, 3, 6, 2, 0, 1, 5, 0, 6, 0, 0, 4, 0, 4, 6, 1, 0, 0, 3, 2, 7, 4, 2, 3, 6, 1, 2, 2, 1, 0, 1, 1, 2, 7, 7, 6, 0, 0, 5, 2, 3, 5, 4, 2, 0, 4, 1, 1, 5, 3, 7, 6, 0, 0, 3, 6, 0, 7, 0, 3, 3, 3, 0, 2, 2, 5, 0, 7, 4, 6, 4, 7, 1, 3, 6, 3, 6, 4, 6, 7, 0, 3, 1, 2, 2, 5, 6, 2, 0, 4, 6, 5, 1, 5, 6, 5, 6, 1, 1, 6, 5, 3, 6, 3, 7, 4, 5, 3, 6, 0, 4, 0, 5, 2, 3, 2, 1, 3, 4, 2, 7, 7, 3, 2, 5, 5, 3, 6, 6, 3, 4, 7, 3, 3, 7, 2, 4, 7, 5, 3, 6, 3, 2, 1, 1, 4, 6, 0, 2, 4, 0, 6, 1, 2, 3, 5, 3, 1, 1, 5, 4, 3, 1, 4, 1, 3, 4, 2, 6, 4, 5, 6, 7, 2, 4, 2, 0, 5, 5, 6, 0, 7, 3, 6, 5, 1, 2, 4, 1, 4, 3, 0, 6, 0, 2, 6, 3, 4, 2, 6, 0, 4, 2, 3, 7, 4, 6, 5, 0, 1, 4, 0, 0, 3, 1, 0, 5, 3, 5, 1, 6, 6, 3, 4, 1, 5, 6, 7, 5, 7, 0, 3, 6, 2, 7, 3, 0, 4, 2, 2, 3, 4, 3, 0, 2, 5, 5, 6, 1, 3, 4, 2, 2, 7, 7, 3, 3, 0, 7, 2, 5, 4, 2, 2, 3, 5, 1, 6, 2, 2, 7, 6, 3, 1, 4, 0, 5, 7, 3, 0, 0, 4, 4, 3, 1, 4, 7, 1, 2, 5, 7, 7, 5, 4, 2, 1, 0, 0, 7, 7, 1, 5, 4, 1, 7, 6, 7, 3, 5, 0, 5, 1, 4, 4, 3, 1, 2, 0, 0, 6, 2, 4, 5, 2, 2, 1, 4, 5, 6, 2, 5, 5, 3, 5, 2, 5, 4, 3, 0, 0, 1, 6, 0, 3, 7, 6, 7, 2, 4, 1, 2, 3, 2, 2, 7, 6, 1, 0, 7, 7, 3, 3, 5, 0, 0, 6, 2, 4, 1, 0, 6, 5, 1, 7, 0, 2, 2, 6, 4, 0, 7, 5, 3, 7, 1, 5, 7, 6, 2, 6, 1, 0, 5, 4, 6, 5, 7, 2, 4, 5, 0, 3, 3, 7, 1, 2, 5, 6, 5, 3, 7, 6, 4, 1, 3, 2, 3, 1, 3, 4, 1, 3, 4, 7, 3, 7, 3, 1, 1, 6, 1, 7, 2, 1, 1, 7, 6, 2, 3, 7, 1, 2, 5, 0, 6, 3, 0, 5, 0, 0, 3, 7, 4, 1, 2, 6, 1, 3, 1, 5, 2, 5, 5, 0, 4, 1, 3, 5, 5, 7, 0, 5, 1, 5, 5, 1, 0, 3, 4, 5, 3, 7, 0, 7, 1, 0, 7, 1, 1, 4, 2, 2, 4, 6, 2, 4, 4, 7, 0, 0, 5, 2, 7, 7, 0, 0, 1, 2, 6, 7, 2, 7, 6, 3, 1, 5, 5, 3, 4, 2, 0, 3, 2, 5, 7, 5, 7, 6, 5, 5, 0, 5, 7, 5, 3, 0, 3, 7, 0, 2, 2, 4, 6, 4, 1, 4, 5, 2, 0, 1, 3, 6, 1, 5, 4, 3, 2, 1, 4, 5, 5, 3, 5, 6, 5, 0, 5, 5, 7, 5, 3, 3, 5, 2, 2, 3, 0, 7, 6, 7, 6, 4, 2, 1, 2, 4, 4, 4, 5, 1, 3, 1, 2, 4, 5, 7, 5, 6, 1, 7, 5, 2, 4, 4, 0, 2, 4, 3, 0, 3, 0, 6, 7, 3, 4, 1, 3, 3, 0, 2, 0, 1, 1, 5, 2, 0, 3, 4, 0, 5, 0, 3, 5, 5, 0, 7, 6, 5, 2, 0, 6, 0, 1, 5, 7, 6, 4, 7, 0, 0, 5, 5, 0, 6, 5, 2, 1, 0, 2, 3, 2, 1, 5, 5, 6, 5, 2, 5, 3, 4, 7, 0, 4, 7, 4, 5, 4, 2, 4, 0, 7, 1, 5, 2, 3, 6, 1, 0, 2, 1, 0, 3, 2, 4, 5, 2, 2, 2, 0, 5, 3, 7, 7, 3, 5, 6, 7, 3, 5, 0, 1, 0, 1, 6, 5, 0, 3, 6, 6, 6, 3, 0, 4, 0, 4, 6, 3, 3, 5, 3, 5, 6, 4, 4, 7, 3, 2, 7, 4, 2, 4, 4, 1, 5, 0, 7, 3, 2, 5, 7, 3, 0, 3, 5, 0, 7, 2, 6, 2, 4, 0, 1, 2, 0, 2, 4, 2, 5, 1, 2, 7, 6, 1, 6, 5, 6, 5, 0, 3, 3, 0, 0, 2, 3, 6, 1, 65, 72, 79, 86, 70, 77, 84, 68, 75, 82, 66, 73, 80, 65, 72, 79, 86, 70, 77, 84, 68, 75, 82, 66, 73, 80, 65, 72, 79, 86, 70, 77, 84, 68, 75, 82, 66, 73, 80, 65, 72, 79, 86, 70, 77, 84, 68, 75, 82, 66, 73, 80, 65, 72, 79, 86, 70, 77, 84, 68, 75, 82, 66, 73, 80, 65, 72, 79, 86, 70, 77, 84, 68, 75, 82, 66, 73, 80, 65, 72, 79, 86, 70, 77, 84, 68, 75, 82, 66, 73, 80, 65, 72, 79, 86, 70, 77, 84, 68, 75, 82, 66, 73, 80, 65, 72, 79, 86, 70, 77, 84, 68, 75, 82, 66, 73, 80, 65, 72, 79, 86, 70, 77, 84, 68, 75, 82, 66, 73, 80, 65, 72, 79, 86, 70, 77, 84, 68, 75, 82, 66, 73, 80, 65, 72, 79, 86, 70, 77, 84, 68, 75, 82, 66, 73, 80, 65, 72, 79, 86, 70, 77, 84, 68, 75, 82, 66, 73, 80, 65, 72, 79, 86, 70, 77, 84, 68, 75, 82, 66, 73, 80, 65, 72, 79, 86, 70, 77, 84, 68, 75, 82, 66, 73, 80, 65, 72, 79, 86, 70, 77, 84, 68, 75, 82, 66, 73, 80, 65, 72, 79, 86, 70, 77, 84, 68, 75, 82, 66, 73, 80, 65, 72, 79, 86, 70, 77, 84, 68, 75, 82, 66, 73, 80, 65, 72, 79, 86, 70, 77, 84, 68, 75, 82, 66, 73, 80, 65, 72, 79, 86, 70, 77, 84, 68, 75, 82, 66, 73, 80, 65, 72, 79, 86, 70, 77, 84, 68, 75, 82, 66, 73, 80, 65, 72, 79, 86, 70, 77, 84, 68, 75, 82, 66, 73, 80, 65, 72, 79, 86, 70, 77, 84, 68, 75, 82, 66, 73, 80, 65, 72, 79, 86, 70, 77, 84, 68, 75, 82, 66, 73, 80, 65, 72, 79, 86, 70, 77, 84, 68, 75, 82, 66, 73, 80, 65, 72, 79, 86, 70, 77, 84, 68, 75, 82, 66, 73, 80, 65, 72, 79, 86, 70, 77, 84, 68, 75, 82, 66, 73, 80, 65, 72, 79, 86, 70, 77, 84, 68, 75, 82, 66, 73, 80, 65, 72, 79, 86, 70, 77, 84, 68, 75, 82, 66, 73, 80, 65, 72, 79, 86, 70, 77, 84, 68, 75, 82, 66, 73, 80, 65, 72, 79, 86, 70, 77, 84, 68, 75, 82, 66, 73, 80, 65, 72, 79, 86, 70, 77, 84, 68, 75, 82, 66, 73, 80, 65, 72, 79, 86, 70, 77, 84, 68, 75, 82, 66, 73, 80, 65, 72, 79, 86, 70, 77, 84, 68, 75, 82, 66, 73, 80, 65, 72, 79, 86, 70, 77, 84, 68, 75, 82, 66, 73, 80, 65, 72, 79, 86, 70, 77, 84, 68, 75, 82, 66, 73, 80, 65, 72, 79, 86, 70, 77, 84, 68, 75, 82, 66, 73, 80, 65, 72, 79, 86, 70, 77, 84, 68, 75, 82, 66, 73, 80, 65, 72, 79, 86, 70, 77, 84, 68, 75, 82, 66, 73, 80, 65, 72, 79, 86, 70, 77, 84, 68, 75, 82, 66, 73, 80, 65, 72, 79, 86, 70, 77, 84, 68, 75, 82, 66, 73, 80, 65, 72, 79, 86, 70, 77, 84, 68, 75, 82, 66, 73, 80, 65, 72, 79, 86, 70, 77, 84, 68, 75, 82, 66, 73, 80, 65, 72, 79, 86, 70, 77, 84, 68, 75, 82, 66, 73, 80, 65, 72, 79, 86, 70, 77, 84, 68, 75, 82, 66, 73, 80, 65, 72, 79, 86, 70, 77, 84, 68, 75, 82, 66, 73, 80, 65, 72]
}

#[test]
fn zlib_long_runs() {
    let stream: Vec<u8> = vec![120, 156, 237, 193, 49, 13, 0, 0, 12, 3, 160, 250, 55, 221, 170, 88, 178, 3, 72, 0, 0, 0, 0, 128, 107, 5, 0, 0, 222, 27, 109, 197, 172, 238];
    let plain: Vec<u8> = expected_zlib_long_runs();
    assert_eq!(zlib_decode(&stream, plain.len()), Ok(plain.clone()));
    assert_eq!(zlib_decode(&stream, plain.len() - 1), Err(DecodeErrorKind::MalformedHeader));
    assert_eq!(zlib_decode(&stream[..stream.len() - 1], plain.len()), Err(DecodeErrorKind::TruncatedData));
    let mut bad = stream.clone();
    let last = bad.len() - 1;
    bad[last] ^= 1;
    assert_eq!(zlib_decode(&bad, plain.len()), Err(DecodeErrorKind::ChecksumMismatch));
}

fn expected_zlib_long_runs() -> Vec<u8> {
    let mut v = vec![0u8; 5000];
    v.extend(vec![255u8; 3000]);
    v
}

#[test]
fn adler32_known_value() {
    assert_eq!(adler32_of(b"Wikipedia"), 0x11e60398);
    assert_eq!(adler32_of(b""), 1);
}

#[test]
fn crc32_known_value() {
    let table = CrcTable::new();
    assert_eq!(table.checksum(b"123456789"), 0xcbf43926);
    assert_eq!(table.checksum(b""), 0);
    assert_eq!(table.checksum(b"IEND"), 0xae426082);
}
