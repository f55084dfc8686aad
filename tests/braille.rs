use braille::codificador::{codificar_texto, palabra_es_all_caps, palabras_caben, CeldaInfo};
use braille::epub::{
    extraer_atributo, extraer_texto_xhtml, ruta_bin, ruta_opf, rutas_spine, texto_de_documentos,
};
use braille::formato::{colocar_palabra, formatear_lineas};
use braille::puntos::{
    a_minuscula, byte_guion_division, digito_a_puntos, es_mayuscula, letra_minuscula,
    puntos_a_byte, puntuacion_a_puntos,
};
use braille::silabas::{
    es_grupo_inseparable, es_vocal, es_vocal_debil_acentuada, es_vocal_fuerte, forman_diptongo,
    silabear,
};
use braille::{codificar_y_formatear, codificar_y_formatear_si_cabe};

fn bytes(celdas: &[CeldaInfo]) -> Vec<u8> {
    celdas.iter().map(|c| c.byte).collect()
}

fn lines(out: &[u8]) -> Vec<Vec<u8>> {
    out.chunks(31).map(|c| c.to_vec()).collect()
}

fn padded(cells: &[u8]) -> Vec<u8> {
    let mut v = cells.to_vec();
    while v.len() < 30 {
        v.push(0);
    }
    v.push(0xFF);
    v
}

#[test]
fn dots_pack_into_bits() {
    assert_eq!(puntos_a_byte(&[]), 0);
    assert_eq!(puntos_a_byte(&[1]), 1);
    assert_eq!(puntos_a_byte(&[3, 6]), 36);
    assert_eq!(puntos_a_byte(&[1, 2, 3, 4, 5, 6]), 63);
    assert_eq!(byte_guion_division(), 36);
}

#[test]
fn letter_digit_and_punctuation_tables() {
    assert_eq!(letra_minuscula('a'), Some(vec![1]));
    assert_eq!(letra_minuscula('\u{00F1}'), Some(vec![1, 2, 4, 5, 6]));
    assert_eq!(letra_minuscula('A'), None);
    assert_eq!(letra_minuscula('\u{00E7}'), None);
    assert_eq!(digito_a_puntos('0'), Some(vec![2, 4, 5]));
    assert_eq!(digito_a_puntos('1'), letra_minuscula('a'));
    assert_eq!(digito_a_puntos('x'), None);
    assert_eq!(puntuacion_a_puntos('\u{00BF}'), Some(vec![2, 6]));
    assert_eq!(puntuacion_a_puntos('\u{201D}'), Some(vec![2, 3, 6]));
    assert_eq!(puntuacion_a_puntos('@'), None);
}

#[test]
fn case_folding() {
    assert_eq!(a_minuscula('\u{00C1}'), '\u{00E1}');
    assert_eq!(a_minuscula('\u{00D1}'), '\u{00F1}');
    assert_eq!(a_minuscula('Q'), 'q');
    assert_eq!(a_minuscula('q'), 'q');
    assert!(es_mayuscula('\u{00D1}'));
    assert!(!es_mayuscula('n'));
    assert!(palabra_es_all_caps("HOLA"));
    assert!(!palabra_es_all_caps("Hola"));
    assert!(!palabra_es_all_caps(""));
}

#[test]
fn vowel_classes() {
    assert!(es_vocal('a'));
    assert!(es_vocal('\u{00DC}'));
    assert!(!es_vocal('y'));
    assert!(es_vocal_fuerte('\u{00C9}'));
    assert!(!es_vocal_fuerte('i'));
    assert!(es_vocal_debil_acentuada('\u{00ED}'));
    assert!(!es_vocal_debil_acentuada('i'));
    assert!(forman_diptongo('a', 'i'));
    assert!(forman_diptongo('\u{00E1}', 'u'));
    assert!(!forman_diptongo('a', 'e'));
    assert!(!forman_diptongo('a', '\u{00ED}'));
    assert!(es_grupo_inseparable('B', 'r'));
    assert!(es_grupo_inseparable('c', 'h'));
    assert!(!es_grupo_inseparable('r', 'd'));
}

#[test]
fn syllables_of_words() {
    assert_eq!(silabear(""), Vec::<usize>::new());
    assert_eq!(silabear("ordenador"), vec![0, 2, 4, 6]);
    assert_eq!(silabear("hablar"), vec![0, 2]);
    assert_eq!(silabear("perro"), vec![0, 2]);
    assert_eq!(silabear("instante"), vec![0, 3, 6]);
    assert_eq!(silabear("ca\u{00ED}da"), vec![0, 2, 4]);
    assert_eq!(silabear("cuidado"), vec![0, 3, 5]);
    assert_eq!(silabear("teatro"), vec![0, 2, 3]);
    assert_eq!(silabear("bcd"), vec![0]);
}

#[test]
fn all_caps_word_has_one_indicator() {
    let c = codificar_texto("HOLA");
    assert_eq!(bytes(&c), vec![40, 19, 21, 7, 1]);
    let flags: Vec<(bool, Option<u32>, bool, bool)> =
        c.iter().map(|x| (x.es_prefijo, x.silaba_idx, x.inicio_silaba, x.inicio_palabra)).collect();
    assert_eq!(
        flags,
        vec![
            (true, Some(0), false, true),
            (false, Some(0), false, true),
            (false, Some(0), false, false),
            (false, Some(1), true, false),
            (false, Some(1), false, false),
        ]
    );
    assert!(c[0].es_prefijo);
    assert!(c[1..].iter().all(|x| !x.es_prefijo));
}

#[test]
fn mixed_case_word_marks_each_capital() {
    let c = codificar_texto("Mesa");
    assert_eq!(bytes(&c), vec![40, 13, 17, 14, 1]);
    assert_eq!(c.iter().filter(|x| x.es_prefijo).count(), 1);
    let c = codificar_texto("eLe");
    assert_eq!(bytes(&c), vec![17, 40, 7, 17]);
}

#[test]
fn period_restarts_numeric_mode() {
    let c = codificar_texto("123.45");
    assert_eq!(bytes(&c), vec![60, 1, 3, 9, 4, 60, 25, 17]);
    assert_eq!(c.iter().filter(|x| x.byte == 60 && x.es_prefijo).count(), 2);
}

#[test]
fn digits_share_one_indicator_until_a_space() {
    let c = codificar_texto("12 3");
    assert_eq!(bytes(&c), vec![60, 1, 3, 0, 60, 9]);
    let c = codificar_texto("1,5");
    assert_eq!(bytes(&c), vec![60, 1, 2, 17]);
}

#[test]
fn unsupported_characters_are_dropped() {
    let c = codificar_texto("a@b");
    assert_eq!(bytes(&c), vec![1, 3]);
    assert!(codificar_texto("").is_empty());
}

#[test]
fn syllable_marks_on_cells() {
    let c = codificar_texto("ordenador");
    let starts: Vec<bool> = c.iter().map(|x| x.inicio_silaba).collect();
    assert_eq!(starts, vec![false, false, true, false, true, false, true, false, false]);
    let idx: Vec<Option<u32>> = c.iter().map(|x| x.silaba_idx).collect();
    assert_eq!(idx[8], Some(3));
    assert!(c[0].inicio_palabra);
}

#[test]
fn word_breaks_after_a_syllable_with_division_mark() {
    let text = format!("{} ordenador", "a".repeat(26));
    let out = codificar_y_formatear(&text);
    let ls = lines(&out);
    assert_eq!(ls.len(), 2);
    let mut first = vec![1u8; 26];
    first.extend_from_slice(&[0, 21, 23, 36, 0xFF]);
    assert_eq!(ls[0], first);
    assert_eq!(ls[1], padded(&[25, 17, 29, 1, 25, 21, 23]));
}

#[test]
fn long_word_without_break_is_cut_into_full_lines() {
    let word = "bcdfghjklmnpqrstvwxzbcdfghjklmnpqrstvwxz";
    let out = codificar_y_formatear(word);
    let cells = bytes(&codificar_texto(word));
    assert_eq!(out.len(), 62);
    let mut first = cells[..30].to_vec();
    first.push(0xFF);
    assert_eq!(lines(&out)[0], first);
    assert_eq!(lines(&out)[1], padded(&cells[30..]));
    assert!(!out.contains(&36));
}

#[test]
fn word_that_cannot_break_moves_to_next_line() {
    let text = format!("{} bcd", "a".repeat(28));
    let out = codificar_y_formatear(&text);
    let ls = lines(&out);
    assert_eq!(ls.len(), 2);
    let mut first = vec![1u8; 28];
    first.push(0);
    assert_eq!(ls[0], padded(&first));
    assert_eq!(ls[1], padded(&[3, 9, 25]));
}

#[test]
fn numeric_indicator_stays_with_its_digit() {
    let text = format!("{} 5", "a".repeat(28));
    let out = codificar_y_formatear(&text);
    let ls = lines(&out);
    assert_eq!(ls.len(), 2);
    let mut first = vec![1u8; 28];
    first.push(0);
    assert_eq!(ls[0], padded(&first));
    assert_eq!(ls[1], padded(&[60, 17]));
}

#[test]
fn output_is_whole_lines_of_small_values() {
    let text = "Hola MUNDO, 123.45 \u{00BF}qu\u{00E9} tal? La pe\u{00F1}a est\u{00E1} en la cumbre del monta\u{00F1}\u{00E9}s.\nOtra l\u{00ED}nea m\u{00E1}s larga que la anterior para varias l\u{00ED}neas.";
    let out = codificar_y_formatear(text);
    assert!(!out.is_empty());
    assert_eq!(out.len() % 31, 0);
    for (k, b) in out.iter().enumerate() {
        if k % 31 == 30 {
            assert_eq!(*b, 0xFF);
        } else {
            assert!(*b <= 63);
        }
    }
}

#[test]
fn encoding_is_deterministic() {
    let text = "Mesa HOLA ordenador 123.45";
    assert_eq!(codificar_y_formatear(text), codificar_y_formatear(text));
}

#[test]
fn blanks_fill_lines_and_empty_text_gives_nothing() {
    assert!(codificar_y_formatear("").is_empty());
    let out = codificar_y_formatear(&" ".repeat(31));
    assert_eq!(out, [padded(&[0; 30]), padded(&[0])].concat());
}

#[test]
fn formatter_places_words_and_prefixes() {
    let w = |b: u8, s: bool, i: u32, ini: bool| CeldaInfo {
        byte: b,
        es_prefijo: false,
        silaba_idx: Some(i),
        inicio_silaba: s,
        inicio_palabra: ini,
    };
    let word = vec![w(1, false, 0, true), w(3, true, 1, false), w(9, true, 2, false)];
    let mut linea = vec![1u8; 28];
    let mut out = Vec::new();
    colocar_palabra(&word, &mut linea, &mut out);
    let mut expected = vec![1u8; 28];
    expected.extend_from_slice(&[1, 36, 0xFF]);
    assert_eq!(out, expected);
    assert_eq!(linea, vec![3, 9]);
    let cells = vec![CeldaInfo {
        byte: 60,
        es_prefijo: true,
        silaba_idx: None,
        inicio_silaba: false,
        inicio_palabra: false,
    }];
    assert_eq!(formatear_lineas(&cells), padded(&[60]));
}

#[test]
fn attribute_values() {
    let line = r#"<item id="c1" href="text/ch1.xhtml" media-type="application/xhtml+xml"/>"#;
    assert_eq!(extraer_atributo(line, "id"), Some("c1".to_string()));
    assert_eq!(extraer_atributo(line, "href"), Some("text/ch1.xhtml".to_string()));
    assert_eq!(extraer_atributo(line, "idref"), None);
    assert_eq!(extraer_atributo(r#"<a x="open"#, "x"), None);
    assert_eq!(extraer_atributo(r#"<a x="">"#, "x"), Some(String::new()));
}

#[test]
fn paragraph_text_of_documents() {
    let doc = "<html><body><h1>T</h1><p>Hola</p><p>mundo <b>feliz</b></p></body></html>";
    assert_eq!(extraer_texto_xhtml(doc), "Hola\nmundo feliz\n\n");
    assert_eq!(extraer_texto_xhtml("<html><body></body></html>"), "\n\n");
    let docs = vec![doc.to_string(), "<p>Fin</p>".to_string()];
    assert_eq!(texto_de_documentos(&docs), "Hola\nmundo feliz\n\nFin\n\n");
}

#[test]
fn package_document_path_from_container() {
    let xml = "<?xml version=\"1.0\"?>\n<container>\n<rootfiles>\n<rootfile full-path=\"OEBPS/content.opf\" media-type=\"application/oebps-package+xml\"/>\n</rootfiles>\n</container>\n";
    assert_eq!(ruta_opf(xml), Some("OEBPS/content.opf".to_string()));
    assert_eq!(ruta_opf("<container/>"), None);
    assert_eq!(ruta_opf("a full-path here\r\n<rootfile full-path=\"x.opf\"/>"), None);
}

#[test]
fn reading_order_from_package_document() {
    let opf = "<package>\r\n<manifest>\r\n<item id=\"c2\" href=\"text/ch2.xhtml\" media-type=\"application/xhtml+xml\"/>\r\n<item id=\"c1\" href=\"text/ch1.xhtml#top\" media-type=\"application/xhtml+xml\"/>\r\n<item id=\"css\" href=\"style.css\" media-type=\"text/css\"/>\r\n<item id=\"abs\" href=\"/abs.xhtml\" media-type=\"application/xhtml+xml\"/>\r\n</manifest>\r\n<spine toc=\"ncx\">\r\n<itemref idref=\"c1\"/>\r\n<itemref idref=\"css\"/>\r\n<itemref idref=\"missing\"/>\r\n<itemref idref=\"c2\"/>\r\n<itemref idref=\"abs\"/>\r\n</spine>\r\n</package>";
    assert_eq!(
        rutas_spine(opf, "OEBPS/content.opf"),
        vec![
            "OEBPS/text/ch1.xhtml".to_string(),
            "OEBPS/text/ch2.xhtml".to_string(),
            "/abs.xhtml".to_string(),
        ]
    );
    assert_eq!(
        rutas_spine(opf, "content.opf"),
        vec!["text/ch1.xhtml".to_string(), "text/ch2.xhtml".to_string(), "/abs.xhtml".to_string()]
    );
    assert!(rutas_spine("<package/>", "content.opf").is_empty());
}

#[test]
fn capital_without_table_entry_gets_no_indicator() {
    assert!(codificar_texto("\u{03A9}").is_empty());
    assert_eq!(bytes(&codificar_texto("a\u{00C7}b")), vec![1, 3]);
    let c = codificar_texto("\u{00C7}A");
    assert_eq!(bytes(&c), vec![40, 1]);
    assert!(c[0].es_prefijo && c[0].inicio_palabra && !c[1].inicio_palabra);
    let c = codificar_texto("\u{00E7}asa");
    assert_eq!(bytes(&c), vec![1, 14, 1]);
    assert!(c[0].inicio_palabra);
    let c = codificar_texto("\u{00E7}Asa");
    assert_eq!(bytes(&c), vec![40, 1, 14, 1]);
    assert!(c[0].inicio_palabra && !c[1].inicio_palabra);
}

#[test]
fn every_indicator_is_followed_by_its_cell() {
    for text in ["\u{03A9}\u{03A9}", "A\u{03A9}B", "\u{00C7}\u{00C7}B 12.3", "HOLA Mesa \u{03A9}"] {
        let c = codificar_texto(text);
        for (k, cell) in c.iter().enumerate() {
            if cell.es_prefijo {
                assert!(k + 1 < c.len());
                assert!(!c[k + 1].es_prefijo);
                assert_ne!(c[k + 1].byte, 0);
            }
        }
    }
}

#[test]
fn uppercase_stressed_vowel_breaks_a_diphthong() {
    assert!(es_vocal_debil_acentuada('\u{00CD}'));
    assert!(es_vocal_debil_acentuada('\u{00DA}'));
    assert!(!forman_diptongo('a', '\u{00CD}'));
    assert!(!forman_diptongo('\u{00DA}', 'a'));
    assert_eq!(silabear("PA\u{00CD}S"), vec![0, 2]);
    assert_eq!(silabear("pa\u{00ED}s"), vec![0, 2]);
    assert_eq!(silabear("RA\u{00DA}L"), vec![0, 2]);
}

#[test]
fn braille_file_name() {
    assert_eq!(ruta_bin("libro.epub"), "libro_braille.bin");
    assert_eq!(ruta_bin("dir/libro.epub.epub"), "dir/libro_braille.bin");
    assert_eq!(ruta_bin("notas.txt"), "notas.txt_braille.bin");
}

#[test]
fn checked_pipeline_accepts_ordinary_text() {
    assert!(palabras_caben("Hola mundo"));
    assert_eq!(codificar_y_formatear_si_cabe("Hola"), Some(codificar_y_formatear("Hola")));
}

#[test]
fn text_lines_and_characters() {
    assert_eq!(ruta_opf("x\r\n<a full-path=\"p.opf\"/>\r\n"), Some("p.opf".to_string()));
    assert_eq!(ruta_opf("<a full-path=\"\u{00F1}.opf\"/>"), Some("\u{00F1}.opf".to_string()));
}
