use image::ImageEncoder;
use minimap::palette::{ColorTable, Rgb, TilesetRegistry};
use minimap::phash::{calculate_perceptual_hash, fingerprint_from_luma, fingerprint_from_rgb16, HashError};
use minimap::render::{render_minimap, render_pixels};
use minimap::style::era_as_str;

fn table_of(entries: &[(u16, Rgb)]) -> ColorTable {
    let mut t = ColorTable::new();
    for (id, c) in entries {
        t.insert(*id, *c);
    }
    t
}

fn registry_with(style: usize, table: ColorTable) -> TilesetRegistry {
    let mut tables = Vec::new();
    let mut table = Some(table);
    for s in 0..8 {
        if s == style {
            tables.push(table.take().unwrap());
        } else {
            tables.push(ColorTable::new());
        }
    }
    TilesetRegistry::from_tables(tables).unwrap()
}

const RED: Rgb = Rgb { r: 255, g: 0, b: 0 };
const GREEN: Rgb = Rgb { r: 0, g: 255, b: 0 };
const WHITE: Rgb = Rgb { r: 255, g: 255, b: 255 };

#[test]
fn era_names_cycle_modulo_eight() {
    assert_eq!(era_as_str(0), "Badlands");
    assert_eq!(era_as_str(1), "Space Platform");
    assert_eq!(era_as_str(2), "Installation");
    assert_eq!(era_as_str(3), "Ashworld");
    assert_eq!(era_as_str(4), "Jungle");
    assert_eq!(era_as_str(5), "Desert");
    assert_eq!(era_as_str(6), "Arctic");
    assert_eq!(era_as_str(7), "Twilight");
    assert_eq!(era_as_str(12), "Jungle");
    assert_eq!(era_as_str(u16::MAX), "Twilight");
}

#[test]
fn color_table_insert_get_len() {
    let mut t = ColorTable::new();
    assert_eq!(t.len(), 0);
    assert_eq!(t.get(5), None);
    t.insert(5, RED);
    t.insert(7, GREEN);
    t.insert(5, WHITE);
    assert_eq!(t.len(), 2);
    assert_eq!(t.get(5), Some(WHITE));
    assert_eq!(t.get(7), Some(GREEN));
    assert_eq!(t.get(6), None);
}

#[test]
fn registry_needs_eight_tables() {
    let seven: Vec<ColorTable> = (0..7).map(|_| ColorTable::new()).collect();
    assert!(TilesetRegistry::from_tables(seven).is_none());
    let nine: Vec<ColorTable> = (0..9).map(|_| ColorTable::new()).collect();
    assert!(TilesetRegistry::from_tables(nine).is_none());
    let eight: Vec<ColorTable> = (0..8).map(|_| ColorTable::new()).collect();
    assert!(TilesetRegistry::from_tables(eight).is_some());
}

#[test]
fn missing_tile_renders_black() {
    let t = table_of(&[(1, RED), (2, GREEN)]);
    let px = render_pixels(&[1, 9, 2, 1], 2, 2, &t);
    assert_eq!(px, vec![255, 0, 0, 0, 0, 0, 0, 255, 0, 255, 0, 0]);
}

#[test]
fn short_grid_renders_tile_zero() {
    let t = table_of(&[(0, WHITE), (1, RED)]);
    let px = render_pixels(&[1], 2, 2, &t);
    assert_eq!(px, vec![255, 0, 0, 255, 255, 255, 255, 255, 255, 255, 255, 255]);
    let t = table_of(&[(1, RED)]);
    let px = render_pixels(&[1], 3, 1, &t);
    assert_eq!(px, vec![255, 0, 0, 0, 0, 0, 0, 0, 0]);
}

#[test]
fn render_uses_the_style_that_era_selects() {
    let reg = registry_with(4, table_of(&[(3, GREEN)]));
    let a = render_minimap(&[3, 3, 3, 3], 2, 2, 12, &reg).unwrap();
    let b = render_minimap(&[3, 3, 3, 3], 2, 2, 0, &reg).unwrap();
    assert_ne!(a, b);
    let c = render_minimap(&[3, 3, 3, 3], 2, 2, 4, &reg).unwrap();
    assert_eq!(a, c);
}

#[test]
fn render_is_deterministic_and_png() {
    let reg = registry_with(0, table_of(&[(1, RED), (2, WHITE)]));
    let grid: Vec<u16> = (0..64).map(|i| (i % 3) as u16).collect();
    let a = render_minimap(&grid, 8, 8, 0, &reg).unwrap();
    let b = render_minimap(&grid, 8, 8, 0, &reg).unwrap();
    assert_eq!(a, b);
    assert_eq!(&a[..8], &[137, 80, 78, 71, 13, 10, 26, 10]);
}

#[test]
fn fingerprint_of_flat_luma_is_all_ones() {
    assert_eq!(fingerprint_from_luma(&[0u8; 256]), [255u8; 32]);
    assert_eq!(fingerprint_from_luma(&[200u8; 256]), [255u8; 32]);
}

#[test]
fn fingerprint_packs_msb_first() {
    let mut luma = vec![0u8; 256];
    for v in luma.iter_mut().skip(128) {
        *v = 255;
    }
    let mut expected = [0u8; 32];
    for b in expected.iter_mut().skip(16) {
        *b = 255;
    }
    assert_eq!(fingerprint_from_luma(&luma), expected);

    // one bright pixel: mean is 0, so every pixel is at least the mean
    let mut luma = vec![0u8; 256];
    luma[0] = 255;
    assert_eq!(fingerprint_from_luma(&luma), [255u8; 32]);

    // mean 128: only the pixels at 255 set their bit
    let mut luma = vec![1u8; 256];
    luma[0] = 255;
    for v in luma.iter_mut().skip(1).take(127) {
        *v = 255;
    }
    luma[8] = 1;
    luma[15] = 1;
    let fp = fingerprint_from_luma(&luma);
    assert_eq!(fp[0], 0b1111_1111);
    assert_eq!(fp[1], 0b0111_1110);
    assert_eq!(fp[16], 0);
}

#[test]
fn fingerprint_from_rgb_uses_luminance() {
    let mut rgb = Vec::new();
    for i in 0..256 {
        if i < 128 {
            rgb.extend_from_slice(&[255, 0, 0]);
        } else {
            rgb.extend_from_slice(&[0, 255, 0]);
        }
    }
    let mut expected = [0u8; 32];
    for b in expected.iter_mut().skip(16) {
        *b = 255;
    }
    assert_eq!(fingerprint_from_rgb16(rgb), expected);
}

#[test]
fn hash_of_rendered_16x16_matches_its_pixels() {
    let t = table_of(&[(1, RED), (2, GREEN), (3, WHITE)]);
    let grid: Vec<u16> = (0..256).map(|i| ((i * 7 + i / 16) % 4) as u16).collect();
    let reg = registry_with(2, t);
    let png = render_minimap(&grid, 16, 16, 2, &reg).unwrap();
    let pixels = render_pixels(&grid, 16, 16, &ColorTable::new());
    assert_eq!(pixels, vec![0u8; 768]);
    let t = table_of(&[(1, RED), (2, GREEN), (3, WHITE)]);
    let pixels = render_pixels(&grid, 16, 16, &t);
    let h1 = calculate_perceptual_hash(&png).unwrap();
    let h2 = calculate_perceptual_hash(&png).unwrap();
    assert_eq!(h1, h2);
    assert_eq!(h1, fingerprint_from_rgb16(pixels));
}

#[test]
fn hash_of_resampled_halves() {
    let mut grid = vec![0u16; 32 * 32];
    for y in 0..32 {
        for x in 16..32 {
            grid[y * 32 + x] = 1;
        }
    }
    let reg = registry_with(0, table_of(&[(1, WHITE)]));
    let png = render_minimap(&grid, 32, 32, 0, &reg).unwrap();
    let fp = calculate_perceptual_hash(&png).unwrap();
    let mut expected = [0u8; 32];
    for (j, b) in expected.iter_mut().enumerate() {
        *b = if j % 2 == 0 { 0 } else { 255 };
    }
    assert_eq!(fp, expected);
}

#[test]
fn hash_rejects_non_png() {
    assert_eq!(calculate_perceptual_hash(&[]), Err(HashError::Decode));
    assert_eq!(calculate_perceptual_hash(b"not an image"), Err(HashError::Decode));
}

#[test]
fn hash_rejects_non_rgb8() {
    let mut png = Vec::new();
    image::codecs::png::PngEncoder::new(&mut png)
        .write_image(&[7u8; 64], 8, 8, image::ColorType::L8)
        .unwrap();
    assert_eq!(calculate_perceptual_hash(&png), Err(HashError::UnsupportedFormat));
    let mut png = Vec::new();
    image::codecs::png::PngEncoder::new(&mut png)
        .write_image(&[7u8; 256], 8, 8, image::ColorType::Rgba8)
        .unwrap();
    assert_eq!(calculate_perceptual_hash(&png), Err(HashError::UnsupportedFormat));
}

#[test]
fn tiles_decode_little_endian() {
    assert_eq!(minimap::render::tiles_from_le_bytes(&[1, 0, 0, 1, 255, 255, 7]), vec![1, 256, 65535]);
    assert_eq!(minimap::render::tiles_from_le_bytes(&[]), Vec::<u16>::new());
}

fn crc32(bytes: &[u8]) -> u32 {
    let mut crc: u32 = 0xffff_ffff;
    for b in bytes {
        crc ^= *b as u32;
        for _ in 0..8 {
            crc = if crc & 1 == 1 { (crc >> 1) ^ 0xedb8_8320 } else { crc >> 1 };
        }
    }
    !crc
}

fn chunk(out: &mut Vec<u8>, name: &[u8], data: &[u8]) {
    out.extend_from_slice(&(data.len() as u32).to_be_bytes());
    let mut body = name.to_vec();
    body.extend_from_slice(data);
    out.extend_from_slice(&body);
    out.extend_from_slice(&crc32(&body).to_be_bytes());
}

// A 1x1 palette image whose one entry is red.
fn palette_png() -> Vec<u8> {
    let mut png = vec![137, 80, 78, 71, 13, 10, 26, 10];
    chunk(&mut png, b"IHDR", &[0, 0, 0, 1, 0, 0, 0, 1, 8, 3, 0, 0, 0]);
    chunk(&mut png, b"PLTE", &[255, 0, 0]);
    // zlib stream: one stored block holding the scanline [filter 0, index 0]
    chunk(&mut png, b"IDAT", &[0x78, 0x01, 0x01, 0x02, 0x00, 0xfd, 0xff, 0, 0, 0x00, 0x02, 0x00, 0x01]);
    chunk(&mut png, b"IEND", &[]);
    png
}

#[test]
fn hash_rejects_palette_png() {
    let png = palette_png();
    assert_eq!(png[25], 3);
    assert_eq!(calculate_perceptual_hash(&png), Err(HashError::UnsupportedFormat));
}

#[test]
fn render_of_empty_raster_fails_to_encode() {
    let reg = registry_with(0, ColorTable::new());
    assert_eq!(render_minimap(&[], 0, 5, 0, &reg), Err(minimap::render::RenderError::Encode));
    assert_eq!(render_minimap(&[], 5, 0, 0, &reg), Err(minimap::render::RenderError::Encode));
    assert!(render_minimap(&[], 1, 1, 0, &reg).is_ok());
}

#[test]
fn every_fingerprint_has_a_set_bit() {
    let reg = registry_with(0, table_of(&[(1, WHITE), (2, RED)]));
    let grid: Vec<u16> = (0..40 * 24).map(|i| ((i / 7) % 3) as u16).collect();
    let png = render_minimap(&grid, 40, 24, 0, &reg).unwrap();
    let fp = calculate_perceptual_hash(&png).unwrap();
    assert!(fp.iter().any(|b| *b != 0));
}
