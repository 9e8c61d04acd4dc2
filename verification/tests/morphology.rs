use visioncortex::{erode_interior, BinaryImage};


#[test]
fn peel1_solid_3x3_removes_center() {
    let image = BinaryImage::from_string(
        "***\n\
         ***\n\
         ***\n");
    let result = erode_interior(&image, 1);
    assert_eq!(result.to_string(),
        "***\n\
         *-*\n\
         ***\n");
}

#[test]
fn peel2_solid_5x5_removes_center_only() {
    let image = BinaryImage::from_string(
        "*****\n\
         *****\n\
         *****\n\
         *****\n\
         *****\n");
    let result = erode_interior(&image, 2);
    assert_eq!(result.to_string(),
        "*****\n\
         *****\n\
         **-**\n\
         *****\n\
         *****\n");
}

#[test]
fn peel_thin_stroke_unchanged() {
    // A 1px wide horizontal line: every pixel is boundary, nothing removed.
    let image = BinaryImage::from_string("*****\n");
    assert_eq!(erode_interior(&image, 1).to_string(), "*****\n");
    assert_eq!(erode_interior(&image, 3).to_string(), "*****\n");
}

#[test]
fn peel_thin_stroke_2px_unchanged() {
    // A 2×5 stroke: all pixels are boundary (each touches an edge).
    let image = BinaryImage::from_string(
        "*****\n\
         *****\n");
    assert_eq!(erode_interior(&image, 1).to_string(),
        "*****\n\
         *****\n");
}

#[test]
fn peel0_returns_original() {
    let image = BinaryImage::from_string(
        "***\n\
         ***\n\
         ***\n");
    // Zero depth: nothing is kept — empty image.
    let result = erode_interior(&image, 0);
    assert_eq!(result.to_string(),
        "---\n\
         ---\n\
         ---\n");
}

#[test]
fn peel_more_than_depth_returns_full_shell() {
    // Peeling a 3×3 solid more than 1 time still gives the full shell
    // (the second peel finds no more interior to remove).
    let image = BinaryImage::from_string(
        "***\n\
         ***\n\
         ***\n");
    let result = erode_interior(&image, 5);
    assert_eq!(result.to_string(),
        "***\n\
         ***\n\
         ***\n");
}

#[test]
fn peel2_fill_star_matches_stroke_shell() {
    // 32×32 filled star (weight-400 Material Symbols), peeled twice.
    // The result should expose only a 2-pixel-deep shell — matching the
    // stroke variant's outline width.
    let fill = BinaryImage::from_string("--------------------------------\n\
             --------------------------------\n\
             --------------------------------\n\
             --------------------------------\n\
             ---------------**---------------\n\
             ---------------**---------------\n\
             --------------****--------------\n\
             --------------****--------------\n\
             -------------*****--------------\n\
             -------------******-------------\n\
             -------------******-------------\n\
             ------------********------------\n\
             ---**************************---\n\
             ----************************----\n\
             -----**********************-----\n\
             ------********************------\n\
             -------******************-------\n\
             ---------**************---------\n\
             ----------************----------\n\
             ----------************----------\n\
             ---------**************---------\n\
             ---------**************---------\n\
             ---------**************---------\n\
             ---------******--******---------\n\
             ---------*****----*****---------\n\
             --------****--------****--------\n\
             --------**------------**--------\n\
             --------*--------------*--------\n\
             --------------------------------\n\
             --------------------------------\n\
             --------------------------------\n\
             --------------------------------\n");
    let result = erode_interior(&fill, 2);
    assert_eq!(result.to_string(), "--------------------------------\n\
             --------------------------------\n\
             --------------------------------\n\
             --------------------------------\n\
             ---------------**---------------\n\
             ---------------**---------------\n\
             --------------****--------------\n\
             --------------****--------------\n\
             -------------**-**--------------\n\
             -------------**--**-------------\n\
             -------------**--**-------------\n\
             ------------**----**------------\n\
             ---**********------**********---\n\
             ----********--------********----\n\
             -----**------------------**-----\n\
             ------***--------------***------\n\
             -------***------------***-------\n\
             ---------**----------**---------\n\
             ----------**--------**----------\n\
             ----------**--------**----------\n\
             ---------**----------**---------\n\
             ---------**----**----**---------\n\
             ---------**---****---**---------\n\
             ---------**-***--***-**---------\n\
             ---------*****----*****---------\n\
             --------****--------****--------\n\
             --------**------------**--------\n\
             --------*--------------*--------\n\
             --------------------------------\n\
             --------------------------------\n\
             --------------------------------\n\
             --------------------------------\n");
}
