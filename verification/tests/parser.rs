use ski_paths::pgm_parser::{terrain_from_pgm, Context, ParseError, SkipWhitespace};
use ski_paths::terrain::{Terrain, Tile, TileType};

fn tokens(s: &str) -> Vec<String> {
    let mut out = Vec::new();
    let mut it = SkipWhitespace::new(s);
    while let Some(t) = it.next() {
        out.push(t);
    }
    out
}

#[test]
fn test_iterator() {
    let s = "s\ns2\n s3\n#do not read\ns4";
    let s_v: Vec<String> = tokens(s);
    assert_eq!(s_v, vec!["s", "s2", "s3", "s4"]);
}

#[test]
fn test_iterator_spaces() {
    let s = "s1\n    s2";
    let s_v: Vec<String> = tokens(s);
    assert_eq!(s_v, vec!["s1", "s2"]);
}

#[test]
fn test_iterator_pgm() {
    let s = "P2
    1 1
    10000
    10
            ";
    let s_v: Vec<String> = tokens(s);
    assert_eq!(s_v, vec!["P2", "1", "1", "10000", "10"]);
}

#[test]
fn test_pgm_comment() {
    let s = "P2
    1 1
    #hello!
    10000
    10000
            ";
    let s_v: Vec<String> = tokens(s);
    assert_eq!(s_v, vec!["P2", "1", "1", "10000", "10000"]);
}

#[test]
fn basic_terrain() {
    let terrain = terrain_from_pgm(
        "P2
    1 1
    10000
    10000
            "
        .to_string(),
        TileType::Snow,
        1000,
    );
    assert_eq!(
        terrain,
        Ok(Terrain::from_tiles(
            vec![Tile {
                height: 10_000_000,
                tile_type: TileType::Snow
            }],
            1,
            1
        ))
    );
}

#[test]
fn comment() {
    let terrain = terrain_from_pgm(
        "P2
    1 1
    #hello!
    10000
    10000
            "
        .to_string(),
        TileType::Snow,
        1000,
    );
    assert_eq!(
        terrain,
        Ok(Terrain::from_tiles(
            vec![Tile {
                height: 10_000_000,
                tile_type: TileType::Snow
            }],
            1,
            1
        ))
    );
}

#[test]
fn bad_magic_number() {
    let r = terrain_from_pgm("P3 1 1 10 10".to_string(), TileType::Snow, 1000);
    assert_eq!(r, Err(ParseError::InvalidMagicNumber("P3".to_string())));
}

#[test]
fn empty_file() {
    let r = terrain_from_pgm("   ".to_string(), TileType::Snow, 1000);
    assert_eq!(r, Err(ParseError::EmptyFile));
}

#[test]
fn missing_pieces() {
    assert_eq!(
        terrain_from_pgm("P2".to_string(), TileType::Snow, 1000),
        Err(ParseError::MissingXDimension)
    );
    assert_eq!(
        terrain_from_pgm("P2 1".to_string(), TileType::Snow, 1000),
        Err(ParseError::MissingYDimension)
    );
    assert_eq!(
        terrain_from_pgm("P2 1 1".to_string(), TileType::Snow, 1000),
        Err(ParseError::MissingMaxHeight)
    );
    assert_eq!(
        terrain_from_pgm("P2 1 2 10 7".to_string(), TileType::Snow, 1000),
        Err(ParseError::MissingDatapoint)
    );
}

#[test]
fn bad_numbers() {
    assert_eq!(
        terrain_from_pgm("P2 a 1 10 7".to_string(), TileType::Snow, 1000),
        Err(ParseError::InvalidNumber {
            context: Context::XDimension,
            error: "a".to_string()
        })
    );
    assert_eq!(
        terrain_from_pgm("P2 1 b 10 7".to_string(), TileType::Snow, 1000),
        Err(ParseError::InvalidNumber {
            context: Context::YDimension,
            error: "b".to_string()
        })
    );
    assert_eq!(
        terrain_from_pgm("P2 1 1 max 7".to_string(), TileType::Snow, 1000),
        Err(ParseError::InvalidNumber {
            context: Context::MaxHeight,
            error: "max".to_string()
        })
    );
    assert_eq!(
        terrain_from_pgm("P2 1 1 10 h".to_string(), TileType::Snow, 1000),
        Err(ParseError::InvalidNumber {
            context: Context::Height,
            error: "h".to_string()
        })
    );
    // A dimension beyond the terrain's limit is rejected, not allocated.
    assert_eq!(
        terrain_from_pgm("P2 999999999 1 10 7".to_string(), TileType::Snow, 1000),
        Err(ParseError::InvalidNumber {
            context: Context::XDimension,
            error: "999999999".to_string()
        })
    );
}
