use zcash_crypto::equihash::{indices_from_minimal, Params};
use zcash_crypto::{verify_equihash_solution, verify_equihash_solution_with_params, Error, Kind};

fn valid_solution() -> Vec<u8> {
    vec![0,134,200,217,242,13,178,205,157,62,17,163,191,161,170,63,60,32,90,253,22,61,27,107,148,169,22,29,41,66,44,148,210,142,218,0,213,68,228,18,167,206,29,201,106,3,230,117,41,81,178,124,194,99,241,60,206,196,212,179,147,100,79,41,43,205,72,207,223,123,71,24,33,242,170,106,44,213,1,184,143,153,157,207,1,84,180,178,97,44,98,91,201,98,192,235,105,124,37,133,207,2,113,179,242,24,43,198,128,35,225,47,119,167,121,99,125,159,170,165,65,61,85,239,181,134,9,57,103,24,145,96,72,55,137,7,115,110,136,32,49,226,28,35,51,30,26,25,75,1,124,235,111,136,139,161,211,3,6,242,62,161,133,62,130,122,32,218,1,77,195,235,139,199,23,184,237,226,195,125,243,111,130,250,130,213,149,94,136,11,51,15,193,10,133,223,56,173,93,164,62,133,119,220,90,136,246,246,243,143,12,129,187,183,149,19,129,225,146,79,65,181,51,32,83,148,207,164,234,99,8,18,227,114,17,28,13,137,104,194,219,98,118,210,233,133,70,125,241,25,227,214,7,16,227,124,101,146,138,215,203,164,65,206,36,87,223,12,205,141,14,100,66,123,225,93,133,17,44,209,185,124,187,89,46,97,235,118,166,190,197,216,217,78,23,210,240,194,7,138,173,165,39,9,22,255,171,211,31,249,201,218,92,197,55,60,106,86,169,7,40,72,177,189,250,230,119,192,182,146,18,213,14,215,62,167,0,249,109,136,10,26,74,39,49,64,17,186,186,20,31,20,165,232,253,134,199,45,29,181,247,242,92,168,53,209,216,248,193,28,208,80,162,111,101,117,204,119,20,159,229,128,214,87,96,143,30,28,50,21,232,244,24,122,59,0,91,64,150,50,106,237,151,2,149,155,61,20,223,199,117,223,97,235,30,156,207,22,172,212,40,83,38,13,250,79,83,161,64,204,211,14,9,101,194,113,178,80,206,113,19,57,116,135,180,53,159,60,3,248,190,37,7,15,53,132,237,131,233,121,113,196,53,207,124,49,81,27,98,223,40,107,87,70,21,117,250,34,25,92,20,202,72,106,187,227,184,205,102,253,225,88,236,9,93,158,113,91,198,128,219,183,27,58,1,133,240,214,188,144,77,243,73,217,96,127,18,39,198,137,50,151,148,79,248,15,32,91,77,164,37,44,49,166,245,211,71,200,67,3,105,206,139,180,49,183,19,60,44,160,10,220,49,33,218,105,83,186,216,231,148,81,190,254,127,250,245,40,183,242,203,37,202,65,203,134,194,84,99,229,120,196,98,11,1,86,123,166,6,27,8,53,110,75,58,39,245,211,180,72,209,232,172,29,93,112,148,142,207,71,91,46,67,166,158,152,183,18,186,154,105,143,212,99,142,165,109,191,88,255,11,222,174,101,244,85,153,81,53,9,176,236,128,110,132,95,89,39,28,91,234,54,71,108,80,81,143,177,165,151,167,132,106,141,172,131,142,56,203,217,206,230,1,231,207,80,224,5,76,104,143,127,80,239,205,251,152,153,136,255,56,183,49,13,135,109,198,224,76,132,170,120,141,196,221,113,107,196,205,126,35,114,26,84,60,101,77,220,41,176,72,145,200,74,134,75,159,104,85,114,109,243,185,73,134,99,196,47,117,245,30,242,5,222,210,230,170,80,103,33,45,225,49,207,101,9,15,234,211,108,13,12,206,170,130,189,87,123,108,95,14,54,95,180,186,133,186,24,37,183,43,118,201,17,233,28,116,70,188,165,102,93,106,242,155,222,201,254,42,47,78,242,149,87,63,114,247,151,101,178,166,173,215,5,198,84,88,211,234,61,243,98,62,56,37,32,5,110,142,231,143,211,84,39,211,109,135,190,41,109,7,106,50,250,129,11,180,250,157,140,69,224,127,58,41,50,27,196,252,168,252,61,143,39,123,113,149,44,147,36,136,214,235,55,233,212,202,130,93,127,70,182,28,45,87,224,105,37,95,37,94,33,118,216,36,247,188,141,229,59,218,115,52,37,110,157,89,91,144,65,106,153,37,243,116,200,187,102,191,84,239,60,86,130,32,47,38,107,148,161,5,245,193,110,245,221,15,64,124,9,177,172,151,86,57,39,246,222,132,219,93,86,61,98,196,114,220,210,53,163,54,128,138,254,15,10,55,24,244,177,3,145,210,3,119,92,3,144,241,207,167,249,140,138,112,66,121,65,6,126,81,118,29,30,181,65,203,40,225,203,119,212,146,89,201,218,70,208,2,37,35,133,212,116,87,35,251,158,69,207,112,223,14,66,41,99,18,14,199,21,97,173,244,46,140,199,226,226,132,37,153,243,178,102,223,132,122,29,197,74,38,185,241,72,136,213,184,95,142,18,164,216,43,225,104,205,77,168,182,76,142,56,0,110,255,39,34,0,155,173,254,35,128,208,115,208,166,173,89,86,144,27,3,152,133,106,246,90,202,253,78,193,69,218,162,112,216,127,16,193,155,197,80,11,210,222,27,205,133,60,25,248,245,55,122,20,255,41,118,137,37,254,250,163,8,121,215,127,142,152,141,71,70,238,147,5,247,204,107,173,46,67,31,189,90,10,69,98,130,154,15,127,120,188,169,81,45,99,96,122,57,89,31,239,163,63,8,36,130,88,114,135,210,172,233,165,91,91,59,226,158,102,228,3,220,208,241,29,251,85,22,46,9,57,142,189,175,242,1,227,92,252,125,48,167,190,185,12,8,107,136,119,44,84,198,45,195,132,51,64,162,78,232,96,224,172,24,159,89,28,152,251,181,30,232,78,53,124,177,26,3,142,112,37,111,57,88,223,33,7,18,76,241,115,27,23,245,69,153,3,130,9,159,194,227,214,49,95,84,30,22,44,34,173,64,80,240,114,191,162,183,73,87,200,224,142,114,149,86,156,60,128,18,140,90,218,196,188,164,99,249,137,66,22,193,59,233,205,77,152,214,169,0,93,144,143,207,183,28,101,23,242,57,104,171,49,246,193,167,72,215,158,23,18]
}

fn valid_input() -> Vec<u8> {
    let mut v = b"block header".to_vec();
    v.extend_from_slice(&[0u8; 32]);
    v
}

#[test]
fn test_indices_from_minimal() {
    let p = Params::new(200, 9).unwrap();
    let solution: Vec<u8> = vec![0, 148, 157, 85, 222, 12, 198, 51, 224, 204, 228, 30, 70, 73, 239, 74, 163, 52, 159, 1, 0, 41, 15, 254, 40, 27, 148, 123, 59, 83, 251, 210, 243, 91, 28, 226, 146, 100, 155, 150, 172, 110, 8, 131, 175, 58, 104, 68, 185, 85, 146, 231, 69, 86, 218, 52, 75, 71, 1, 150, 28, 212, 19, 12, 104, 33, 156, 250, 19, 65, 213, 175, 181, 4, 158, 176, 232, 190, 74, 45, 146, 214, 120, 196, 7, 133, 227, 55, 5, 84, 139, 95, 58, 84, 240, 164, 195, 154, 47, 88, 238, 120, 74, 36, 22, 60, 216, 111, 84, 129, 35, 39, 223, 85, 225, 213, 92, 168, 75, 110, 123, 136, 122, 124, 191, 185, 9, 26, 88, 91, 219, 142, 164, 117, 147, 7, 197, 108, 27, 61, 175, 198, 105, 36, 90, 111, 101, 75, 111, 115, 0, 82, 38, 106, 1, 173, 79, 156, 11, 89, 237, 78, 23, 113, 43, 62, 114, 223, 4, 152, 170, 141, 228, 136, 143, 153, 53, 49, 198, 10, 205, 237, 29, 75, 102, 232, 157, 224, 182, 72, 44, 204, 212, 167, 18, 245, 207, 157, 76, 168, 59, 224, 249, 34, 222, 44, 29, 187, 58, 20, 7, 72, 13, 190, 135, 149, 153, 61, 139, 230, 64, 152, 138, 191, 231, 168, 161, 179, 58, 18, 19, 28, 69, 30, 26, 188, 13, 131, 251, 133, 24, 98, 198, 55, 206, 114, 77, 95, 233, 122, 169, 168, 6, 207, 52, 186, 181, 9, 244, 85, 75, 12, 209, 10, 125, 223, 213, 130, 27, 9, 26, 210, 201, 12, 26, 161, 216, 30, 179, 215, 45, 180, 25, 147, 182, 72, 244, 30, 33, 56, 255, 149, 49, 163, 15, 247, 59, 34, 20, 14, 78, 189, 123, 170, 51, 132, 142, 81, 45, 153, 48, 12, 92, 19, 28, 110, 117, 245, 113, 74, 92, 109, 203, 23, 139, 74, 73, 120, 218, 200, 58, 212, 18, 251, 214, 146, 1, 146, 80, 197, 83, 4, 154, 173, 69, 121, 132, 190, 223, 201, 106, 231, 1, 198, 89, 188, 112, 7, 169, 125, 10, 144, 2, 185, 69, 189, 236, 69, 169, 69, 239, 98, 133, 178, 205, 85, 59, 76, 9, 217, 7, 198, 39, 134, 63, 3, 153, 232, 114, 91, 79, 247, 252, 89, 121, 227, 207, 242, 40, 20, 80, 132, 72, 239, 139, 152, 49, 194, 133, 149, 147, 51, 57, 106, 163, 98, 165, 28, 242, 5, 9, 122, 250, 190, 193, 94, 65, 251, 110, 48, 182, 34, 55, 75, 245, 139, 55, 239, 157, 27, 36, 30, 173, 90, 104, 43, 152, 182, 87, 73, 165, 117, 104, 226, 56, 213, 10, 253, 65, 126, 30, 150, 14, 123, 90, 6, 79, 217, 246, 148, 215, 131, 162, 203, 205, 88, 85, 45, 237, 187, 158, 94, 17, 35, 103, 78, 247, 58, 82, 65, 150, 207, 5, 211, 229, 36, 102, 5, 73, 255, 231, 189, 101, 104, 5, 113, 53, 255, 213, 175, 217, 67, 246, 218, 17, 203, 181, 151, 232, 204, 236, 215, 126, 203, 233, 9, 222, 6, 49, 191, 162, 156, 211, 227, 213, 84, 70, 113, 186, 128, 37, 97, 83, 214, 233, 153, 11, 136, 173, 142, 12, 244, 152, 155, 239, 75, 228, 87, 249, 199, 176, 241, 170, 205, 110, 14, 243, 32, 96, 92, 41, 237, 12, 210, 235, 108, 252, 226, 22, 197, 42, 49, 117, 128, 32, 28, 173, 122, 9, 67, 210, 75, 123, 6, 213, 191, 117, 135, 97, 221, 150, 225, 25, 112, 181, 222, 214, 151, 34, 43, 44, 119, 231, 242, 86, 166, 5, 172, 117, 85, 73, 193, 101, 31, 37, 173, 252, 157, 83, 217, 17, 126, 58, 11, 180, 9, 238, 228, 166, 0, 18, 4, 114, 148, 156, 125, 218, 28, 46, 219, 60, 51, 12, 127, 150, 23, 153, 130, 145, 100, 87, 211, 49, 233, 99, 9, 221, 36, 223, 116, 238, 221, 0, 231, 219, 73, 126, 225, 48, 247, 125, 230, 102, 235, 85, 127, 179, 22, 232, 122, 218, 241, 129, 60, 228, 38, 164, 88, 166, 238, 227, 168, 91, 42, 184, 143, 101, 83, 170, 218, 232, 222, 101, 46, 33, 26, 29, 159, 51, 77, 89, 107, 94, 182, 23, 52, 7, 239, 204, 46, 129, 84, 187, 156, 161, 33, 42, 169, 161, 161, 18, 29, 47, 90, 119, 18, 207, 37, 204, 129, 72, 184, 5, 46, 13, 46, 9, 242, 14, 91, 162, 169, 130, 119, 233, 117, 176, 238, 217, 168, 146, 6, 150, 99, 55, 22, 63, 33, 92, 157, 4, 166, 89, 139, 9, 88, 211, 51, 216, 70, 119, 60, 105, 229, 171, 253, 10, 4, 39, 243, 102, 6, 20, 221, 130, 183, 154, 219, 133, 26, 13, 88, 182, 45, 245, 240, 179, 172, 131, 110, 110, 37, 243, 165, 31, 73, 169, 154, 222, 87, 121, 111, 233, 252, 194, 111, 10, 31, 148, 255, 8, 25, 254, 82, 183, 80, 135, 237, 190, 211, 168, 22, 38, 235, 84, 22, 198, 101, 87, 241, 28, 15, 206, 223, 242, 35, 214, 170, 140, 213, 195, 83, 134, 229, 180, 185, 90, 15, 3, 146, 202, 48, 26, 56, 179, 104, 125, 9, 68, 147, 185, 233, 210, 100, 208, 122, 25, 12, 229, 125, 17, 104, 4, 56, 42, 63, 171, 225, 90, 244, 223, 79, 160, 67, 240, 40, 122, 161, 237, 85, 104, 217, 239, 93, 18, 81, 13, 1, 12, 205, 171, 78, 182, 22, 246, 223, 19, 187, 49, 38, 239, 67, 217, 214, 87, 53, 228, 228, 192, 75, 87, 99, 72, 208, 64, 181, 53, 5, 90, 61, 90, 225, 145, 183, 95, 6, 18, 243, 178, 64, 102, 160, 82, 69, 242, 127, 229, 123, 218, 102, 189, 109, 236, 126, 79, 201, 203, 35, 104, 2, 6, 42, 221, 227, 205, 14, 49, 52, 130, 201, 42, 12, 114, 17, 2, 177, 243, 139, 1, 90, 184, 208, 21, 89, 203, 203, 64, 246, 116, 233, 239, 173, 94, 233, 194, 254, 19, 63, 170, 85, 202, 29, 208, 255, 38, 113, 15, 157, 168, 25, 204, 20, 89, 203, 126, 210, 96, 218, 211, 219, 5, 150, 37, 141, 71, 199, 76, 50, 168, 184, 82, 182, 113, 197, 160, 202, 162, 0, 22, 3, 217, 12, 145, 167, 223, 46, 45, 78, 233, 174, 155, 241, 166, 177, 236, 136, 21, 28, 98, 54, 13, 3, 2, 77, 46, 45, 1, 20, 8, 79, 107, 136, 197, 187, 162, 74, 167, 206, 207, 172, 22, 233, 30, 11, 175, 61, 134, 83, 226, 24, 9, 62, 129, 210, 166, 60, 50, 239, 241, 217, 3, 15, 158, 20, 20, 236, 228, 32, 218, 162, 78, 13, 213, 184, 69, 179, 39, 75, 184, 57, 202, 28, 83, 188, 192, 25, 66, 66, 215, 75, 38, 49, 185, 73, 90, 101, 79, 187, 220, 191, 173, 119, 159, 115, 34, 182, 7, 54, 36, 152, 128, 96, 72, 33, 217, 105, 36, 227, 250, 57, 127, 53, 74, 94, 204, 163, 79, 97, 77, 165, 69, 111, 155, 54, 51, 140, 55, 216, 246, 251, 246, 38, 190, 152, 52, 119, 118, 96, 34, 135, 39, 70, 218, 16, 161, 119, 28, 235, 2, 221, 138, 172, 1, 186, 24, 107, 241, 72, 134, 48, 71, 158, 18, 132, 218, 1, 144, 252, 232, 181, 154, 198, 176, 253, 65, 107, 238, 86, 183, 47, 10, 88, 69, 21, 53, 87, 255, 15, 73, 80, 160, 220, 91, 230, 92, 233, 66, 210, 46, 24, 83, 76, 78, 14, 250, 187, 45, 21, 37, 220, 72, 88, 185, 176, 247, 125, 71, 74, 18, 94, 188, 37, 14, 8, 254, 219, 250, 166, 111, 69, 61, 144, 147, 44, 171, 63, 244, 82, 33, 144, 153, 104, 229, 30, 107, 194, 84, 213, 9, 173, 235, 117, 203, 167, 109, 72, 254, 2, 78, 62, 102, 216, 223, 94];
    let indices = indices_from_minimal(p, solution.as_slice()).unwrap();

    let expected: Vec<u32> = vec![4755, 1398648, 418585, 1969358, 539788, 1211346, 1382820, 2031872, 336383, 1613934, 671133, 1392573, 386742, 473252, 1254620, 1485934, 69749, 1894817, 154794, 1650292, 699828, 856785, 1576112, 1889299, 101636, 422888, 631018, 1768272, 605537, 1716114, 1141910, 1472708, 61628, 842773, 673199, 1287503, 84359, 429014, 488386, 664598, 498445, 1921540, 1151983, 1400349, 702800, 1235870, 1852371, 1884089, 74571, 94062, 479802, 1650812, 710710, 1010673, 1263906, 1732453, 617966, 786760, 1258752, 1758457, 1578675, 1790853, 1804633, 1995487, 37653, 669586, 280524, 1266460, 791963, 1787730, 1783620, 1958070, 591257, 1266332, 621287, 1692874, 1079233, 1984695, 1138925, 1784340, 59649, 1505822, 707742, 1621604, 78101, 1047018, 331161, 1708563, 231587, 1600240, 442877, 1593734, 363631, 1285267, 720715, 1747368, 55782, 1239764, 326186, 1355981, 136443, 1570144, 1103944, 1757897, 99156, 483450, 1698710, 1786265, 486545, 1902472, 641020, 1388963, 130791, 821328, 468830, 1555107, 461084, 1330022, 622690, 1839900, 904894, 1426729, 931557, 1145012, 1348337, 1487374, 1482903, 1824402, 12874, 202060, 150870, 1333144, 622015, 1202873, 1576498, 1686640, 62767, 1321536, 89250, 1826500, 742027, 1824929, 890474, 1391436, 80672, 2037918, 204673, 1678983, 308895, 1965846, 773918, 1045032, 166416, 1123262, 379928, 1845337, 730726, 940712, 1774888, 1896965, 77663, 719621, 991485, 1499915, 803950, 1244514, 1687420, 1907492, 251307, 630958, 809771, 1350231, 709060, 931138, 1567243, 1973910, 118635, 530751, 850762, 882746, 366490, 1447243, 1011164, 1990161, 290025, 1826025, 598219, 847965, 510536, 1671506, 1048381, 1926504, 44582, 1572694, 1567905, 2059681, 235371, 391731, 485051, 2018281, 80832, 1623806, 1134185, 1981781, 560355, 958473, 723614, 1501593, 94485, 1456179, 1723469, 2028734, 569331, 1174588, 874091, 921331, 265227, 1091508, 420213, 1494990, 273802, 691293, 786688, 1879418, 75898, 601580, 223967, 1529974, 244525, 1590876, 372470, 1480482, 353678, 2072521, 742146, 1754965, 693122, 1656777, 880612, 1922009, 143303, 536272, 325490, 679937, 264421, 337695, 970977, 973628, 418191, 1988702, 835912, 1459581, 418770, 1622647, 599803, 1371869, 7419, 861691, 1087611, 1564262, 906922, 2092229, 1524694, 1765761, 498820, 1741154, 1275761, 1738162, 1405214, 1660138, 1496902, 1991982, 271171, 1473741, 437429, 1436513, 944143, 1831691, 1313445, 1809569, 271701, 427652, 593559, 1419121, 368203, 1253458, 376873, 920878, 81473, 1666698, 1360187, 2004827, 122291, 664705, 1356569, 1513023, 273299, 1315481, 836996, 1412403, 503948, 1953562, 994655, 1903108, 327276, 1579091, 967003, 1682872, 668698, 1453451, 1027973, 1289347, 904644, 1560212, 1025236, 1682917, 979679, 1736496, 1275984, 2069759, 66367, 1657565, 541686, 1830202, 1059917, 1758469, 1454890, 1569052, 129499, 2082959, 742726, 875573, 462283, 863830, 1079324, 1231408, 214806, 893428, 303689, 1810077, 313760, 2000451, 469992, 1140740, 460103, 2011013, 883311, 1374724, 516176, 2009211, 699206, 1699677, 150049, 1311795, 447911, 745839, 900647, 969801, 1538590, 1693271, 441500, 1245485, 766372, 853003, 682506, 1478486, 1510541, 1531654, 155254, 590234, 1059106, 2041854, 718772, 1683291, 1008626, 1034699, 290048, 530603, 979430, 1106707, 591250, 688924, 1083413, 1176459, 11095, 213077, 845285, 1314663, 644063, 743354, 923632, 1261482, 702787, 1524732, 1259655, 1694337, 1284136, 1471199, 1479430, 1758171, 45764, 1455391, 239129, 691077, 355555, 1140786, 1380352, 1442777, 102964, 2063544, 1484660, 1763775, 216419, 1778181, 582417, 1445123, 18853, 1618948, 656423, 1489036, 751428, 1223155, 1473888, 1501470, 95719, 1448271, 1117188, 1304605, 347256, 834556, 968728, 1023508, 171420, 1082218, 1124102, 1923972, 747086, 1240590, 938210, 1293504, 206920, 744748, 1251548, 1349030, 696183, 1519595, 769275, 1254070, 59076, 1204737, 1057808, 1939090, 641012, 942029, 676598, 828239, 797108, 1381822, 891673, 1622909, 1175031, 1935791, 1360291, 1537632, 282852, 1907560, 544955, 1167024, 375573, 721006, 1098591, 1132678, 395507, 1591827, 852168, 1035915, 734605, 802640, 745330, 1488687, 84744, 1332437, 786311, 1348874, 112823, 1677114, 661137, 923731, 625089, 1829612, 1477266, 1950853, 1143649, 1957713, 1724562, 2014245, 114975, 1798122, 1259426, 1300745, 416086, 1047828, 1117316, 1665253, 249208, 611156, 317173, 1531066, 973457, 2064531, 1176374, 1630046];
    assert_eq!(indices, expected);
}

#[test]
fn valid_solution_verifies() {
    assert_eq!(verify_equihash_solution(&valid_input(), &valid_solution()), Ok(()));
}

#[test]
fn valid_solution_indices_are_distinct_and_small() {
    let p = Params::new(200, 9).unwrap();
    let indices = indices_from_minimal(p, &valid_solution()).unwrap();
    assert_eq!(indices.len(), 512);
    assert_eq!(indices[0], 4313);
    assert_eq!(indices[511], 1971986);
    for (i, a) in indices.iter().enumerate() {
        assert!(*a < (1 << 21));
        for b in indices.iter().skip(i + 1) {
            assert_ne!(a, b);
        }
    }
}

#[test]
fn other_input_fails_verification() {
    let mut input = valid_input();
    input[12] = 1;
    assert_eq!(
        verify_equihash_solution(&input, &valid_solution()),
        Err(Error(Kind::Collision))
    );
}

#[test]
fn mutated_solution_bytes_fail_verification() {
    for pos in [0usize, 1, 100, 500, 1000, 1343] {
        let mut s = valid_solution();
        s[pos] ^= 1;
        assert_eq!(
            verify_equihash_solution(&valid_input(), &s),
            Err(Error(Kind::Collision)),
            "byte {pos}"
        );
    }
}

#[test]
fn swapped_halves_are_out_of_order() {
    let s: Vec<u8> = vec![1,231,207,80,224,5,76,104,143,127,80,239,205,251,152,153,136,255,56,183,49,13,135,109,198,224,76,132,170,120,141,196,221,113,107,196,205,126,35,114,26,84,60,101,77,220,41,176,72,145,200,74,134,75,159,104,85,114,109,243,185,73,134,99,196,47,117,245,30,242,5,222,210,230,170,80,103,33,45,225,49,207,101,9,15,234,211,108,13,12,206,170,130,189,87,123,108,95,14,54,95,180,186,133,186,24,37,183,43,118,201,17,233,28,116,70,188,165,102,93,106,242,155,222,201,254,42,47,78,242,149,87,63,114,247,151,101,178,166,173,215,5,198,84,88,211,234,61,243,98,62,56,37,32,5,110,142,231,143,211,84,39,211,109,135,190,41,109,7,106,50,250,129,11,180,250,157,140,69,224,127,58,41,50,27,196,252,168,252,61,143,39,123,113,149,44,147,36,136,214,235,55,233,212,202,130,93,127,70,182,28,45,87,224,105,37,95,37,94,33,118,216,36,247,188,141,229,59,218,115,52,37,110,157,89,91,144,65,106,153,37,243,116,200,187,102,191,84,239,60,86,130,32,47,38,107,148,161,5,245,193,110,245,221,15,64,124,9,177,172,151,86,57,39,246,222,132,219,93,86,61,98,196,114,220,210,53,163,54,128,138,254,15,10,55,24,244,177,3,145,210,3,119,92,3,144,241,207,167,249,140,138,112,66,121,65,6,126,81,118,29,30,181,65,203,40,225,203,119,212,146,89,201,218,70,208,2,37,35,133,212,116,87,35,251,158,69,207,112,223,14,66,41,99,18,14,199,21,97,173,244,46,140,199,226,226,132,37,153,243,178,102,223,132,122,29,197,74,38,185,241,72,136,213,184,95,142,18,164,216,43,225,104,205,77,168,182,76,142,56,0,110,255,39,34,0,155,173,254,35,128,208,115,208,166,173,89,86,144,27,3,152,133,106,246,90,202,253,78,193,69,218,162,112,216,127,16,193,155,197,80,11,210,222,27,205,133,60,25,248,245,55,122,20,255,41,118,137,37,254,250,163,8,121,215,127,142,152,141,71,70,238,147,5,247,204,107,173,46,67,31,189,90,10,69,98,130,154,15,127,120,188,169,81,45,99,96,122,57,89,31,239,163,63,8,36,130,88,114,135,210,172,233,165,91,91,59,226,158,102,228,3,220,208,241,29,251,85,22,46,9,57,142,189,175,242,1,227,92,252,125,48,167,190,185,12,8,107,136,119,44,84,198,45,195,132,51,64,162,78,232,96,224,172,24,159,89,28,152,251,181,30,232,78,53,124,177,26,3,142,112,37,111,57,88,223,33,7,18,76,241,115,27,23,245,69,153,3,130,9,159,194,227,214,49,95,84,30,22,44,34,173,64,80,240,114,191,162,183,73,87,200,224,142,114,149,86,156,60,128,18,140,90,218,196,188,164,99,249,137,66,22,193,59,233,205,77,152,214,169,0,93,144,143,207,183,28,101,23,242,57,104,171,49,246,193,167,72,215,158,23,18,0,134,200,217,242,13,178,205,157,62,17,163,191,161,170,63,60,32,90,253,22,61,27,107,148,169,22,29,41,66,44,148,210,142,218,0,213,68,228,18,167,206,29,201,106,3,230,117,41,81,178,124,194,99,241,60,206,196,212,179,147,100,79,41,43,205,72,207,223,123,71,24,33,242,170,106,44,213,1,184,143,153,157,207,1,84,180,178,97,44,98,91,201,98,192,235,105,124,37,133,207,2,113,179,242,24,43,198,128,35,225,47,119,167,121,99,125,159,170,165,65,61,85,239,181,134,9,57,103,24,145,96,72,55,137,7,115,110,136,32,49,226,28,35,51,30,26,25,75,1,124,235,111,136,139,161,211,3,6,242,62,161,133,62,130,122,32,218,1,77,195,235,139,199,23,184,237,226,195,125,243,111,130,250,130,213,149,94,136,11,51,15,193,10,133,223,56,173,93,164,62,133,119,220,90,136,246,246,243,143,12,129,187,183,149,19,129,225,146,79,65,181,51,32,83,148,207,164,234,99,8,18,227,114,17,28,13,137,104,194,219,98,118,210,233,133,70,125,241,25,227,214,7,16,227,124,101,146,138,215,203,164,65,206,36,87,223,12,205,141,14,100,66,123,225,93,133,17,44,209,185,124,187,89,46,97,235,118,166,190,197,216,217,78,23,210,240,194,7,138,173,165,39,9,22,255,171,211,31,249,201,218,92,197,55,60,106,86,169,7,40,72,177,189,250,230,119,192,182,146,18,213,14,215,62,167,0,249,109,136,10,26,74,39,49,64,17,186,186,20,31,20,165,232,253,134,199,45,29,181,247,242,92,168,53,209,216,248,193,28,208,80,162,111,101,117,204,119,20,159,229,128,214,87,96,143,30,28,50,21,232,244,24,122,59,0,91,64,150,50,106,237,151,2,149,155,61,20,223,199,117,223,97,235,30,156,207,22,172,212,40,83,38,13,250,79,83,161,64,204,211,14,9,101,194,113,178,80,206,113,19,57,116,135,180,53,159,60,3,248,190,37,7,15,53,132,237,131,233,121,113,196,53,207,124,49,81,27,98,223,40,107,87,70,21,117,250,34,25,92,20,202,72,106,187,227,184,205,102,253,225,88,236,9,93,158,113,91,198,128,219,183,27,58,1,133,240,214,188,144,77,243,73,217,96,127,18,39,198,137,50,151,148,79,248,15,32,91,77,164,37,44,49,166,245,211,71,200,67,3,105,206,139,180,49,183,19,60,44,160,10,220,49,33,218,105,83,186,216,231,148,81,190,254,127,250,245,40,183,242,203,37,202,65,203,134,194,84,99,229,120,196,98,11,1,86,123,166,6,27,8,53,110,75,58,39,245,211,180,72,209,232,172,29,93,112,148,142,207,71,91,46,67,166,158,152,183,18,186,154,105,143,212,99,142,165,109,191,88,255,11,222,174,101,244,85,153,81,53,9,176,236,128,110,132,95,89,39,28,91,234,54,71,108,80,81,143,177,165,151,167,132,106,141,172,131,142,56,203,217,206,230];
    assert_eq!(
        verify_equihash_solution(&valid_input(), &s),
        Err(Error(Kind::OutOfOrder))
    );
}

#[test]
fn repeated_index_is_duplicate() {
    assert_eq!(
        verify_equihash_solution(b"x", &[0u8; 1344]),
        Err(Error(Kind::DuplicateIdxs))
    );
}

#[test]
fn wrong_solution_length_is_invalid() {
    assert_eq!(
        verify_equihash_solution(&valid_input(), &[0u8; 1343]),
        Err(Error(Kind::InvalidParams))
    );
    let p = Params::new(200, 9).unwrap();
    assert!(indices_from_minimal(p, &[0u8; 1345]).is_none());
}

#[test]
fn invalid_parameters_are_rejected() {
    assert!(Params::new(200, 9).is_some());
    assert!(Params::new(96, 5).is_some());
    assert!(Params::new(201, 9).is_none());
    assert!(Params::new(200, 2).is_none());
    assert!(Params::new(200, 6).is_none());
    assert!(Params::new(8, 8).is_none());
    assert_eq!(
        verify_equihash_solution_with_params(200, 6, b"x", &[0u8; 1344]),
        Err(Error(Kind::InvalidParams))
    );
}

#[test]
fn params_report_their_values() {
    let p = Params::new(144, 5).unwrap();
    assert_eq!((p.n(), p.k()), (144, 5));
}

#[test]
fn every_seventh_byte_mutated_fails() {
    let input = valid_input();
    let base = valid_solution();
    for pos in (0..base.len()).step_by(7) {
        for flip in [0x01u8, 0x80] {
            let mut s = base.clone();
            s[pos] ^= flip;
            assert!(verify_equihash_solution(&input, &s).is_err(), "byte {pos} flip {flip:#x}");
        }
    }
}
