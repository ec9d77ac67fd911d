use pattern_discovery::clustering::{ClusteringOperation, Merge};
use pattern_discovery::error::DiscoveryError;
use pattern_discovery::reporting::{number, Templates};

fn templates() -> Templates {
    Templates {
        img_w: "3cm".to_string(),
        img_h: "2cm".to_string(),
        out_docs: "docs".to_string(),
        out_images: "images".to_string(),
        out_audio: "audio".to_string(),
        document: "document.tex".to_string(),
        dendogram: "dendogram.tex".to_string(),
        figure: "figure.tex".to_string(),
        result_html: "result.html".to_string(),
        out_encoder: "encoder".to_string(),
    }
}

#[test]
fn image_ref_names_the_image() {
    let t = templates();
    assert_eq!(
        t.image_ref("a.png", true),
        "{\\includegraphics[width=3cm, height=2cm]{../images/a.png}}\n"
    );
    assert_eq!(t.image_ref("a.png", false), "\\includegraphics[width=\\textwidth]{../images/a.png}\n");
}

#[test]
fn numbers_are_written_in_decimal() {
    assert_eq!(number(0), "0");
    assert_eq!(number(7), "7");
    assert_eq!(number(10), "10");
    assert_eq!(number(1234567890), "1234567890");
    assert_eq!(number(usize::MAX), usize::MAX.to_string());
}

#[test]
fn link_list_links_every_file() {
    assert_eq!(Templates::link_list(&vec![]), "<ul></ul>");
    assert_eq!(
        Templates::link_list(&vec!["c.wav".to_string(), "d.wav".to_string()]),
        "<ul><li><a href=\"audio/c.wav\" download=audio/c.wav>audio/c.wav</a></li>\n\
         <li><a href=\"audio/d.wav\" download=audio/d.wav>audio/d.wav</a></li>\n</ul>"
    );
}

#[test]
fn templates_are_filled() {
    let page = Templates::html_page(
        "A [CLUSTERS_WAV] B [SUB_WAV] C",
        &vec!["c.wav".to_string()],
        &vec![],
    );
    assert_eq!(
        page,
        "A <ul><li><a href=\"audio/c.wav\" download=audio/c.wav>audio/c.wav</a></li>\n</ul> B <ul></ul> C"
    );
    assert_eq!(
        Templates::document_text("x<body>y<body>", &vec!["p".to_string(), "q".to_string()]),
        "xpqypq"
    );
    assert_eq!(Templates::document_text("no body", &vec!["p".to_string()]), "no body");
    assert_eq!(Templates::tikz("T<tree>T", "X"), "TXT");
    assert_eq!(Templates::figure("<img_ref>|<caption>", "i", "c"), "i|c");
}

#[test]
fn plot_encodes_a_png_file() {
    let t = templates();
    let (path, bytes) = t.plot("f.png", &vec![0, 85, 170, 255, 0, 1], 2, 3).unwrap();
    assert_eq!(path, "images/f.png");
    assert_eq!(bytes[0..8], [137, 80, 78, 71, 13, 10, 26, 10]);
    // the header names three columns and two rows of eight bit gray
    assert_eq!(bytes[12..16], *b"IHDR");
    assert_eq!(bytes[16..24], [0, 0, 0, 3, 0, 0, 0, 2]);
    assert_eq!(bytes[24..26], [8, 0]);
    assert_eq!(bytes[bytes.len() - 8..bytes.len() - 4], *b"IEND");
    let again = t.plot("f.png", &vec![0, 85, 170, 255, 0, 1], 2, 3).unwrap();
    assert_eq!(again.1, bytes);
    // too few pixels for the dimensions
    let failed = t.plot("f.png", &vec![0, 85, 170], 2, 3);
    assert!(matches!(failed, Err(DiscoveryError::IO(_))));
}

#[test]
fn plotted_keeps_the_outcome() {
    let ok = Templates::plotted("p".to_string(), Ok(vec![1, 2, 3]));
    assert_eq!(ok.unwrap(), ("p".to_string(), vec![1, 2, 3]));
    let error = std::io::Error::new(std::io::ErrorKind::Other, "no");
    let failed = Templates::plotted("p".to_string(), Err(error));
    assert!(matches!(failed, Err(DiscoveryError::IO(_))));
}

fn merges() -> Vec<ClusteringOperation> {
    vec![
        ClusteringOperation {
            merge_i: 0,
            merge_j: 1,
            into: 3,
            distance: 1,
            operation: Merge::Sequence2Sequence,
        },
        ClusteringOperation {
            merge_i: 3,
            merge_j: 2,
            into: 4,
            distance: 6,
            operation: Merge::Cluster2Sequence,
        },
    ]
}

#[test]
fn dendrogram_trees_nest() {
    let t = templates();
    let images = vec!["a".to_string(), "b".to_string(), "c".to_string()];
    let trees = t.dendogram_trees(&merges(), &images);
    let leaf = |name: &str| t.image_ref(name, true);
    let first = format!("[.3 [{} {} ] ]", leaf("a"), leaf("b"));
    let second = format!("[.4 [{} {} ] ]", first, leaf("c"));
    assert_eq!(trees, vec![first.clone(), second.clone()]);
    assert_eq!(Templates::tree_of(&merges(), &trees, 4), Some(second));
    assert_eq!(Templates::tree_of(&merges(), &trees, 3), Some(first));
    assert_eq!(Templates::tree_of(&merges(), &trees, 2), None);
}

#[test]
fn io_errors_become_discovery_errors() {
    let error = std::io::Error::new(std::io::ErrorKind::NotFound, "gone");
    let DiscoveryError::IO(inner) = DiscoveryError::from(error);
    assert_eq!(inner.kind(), std::io::ErrorKind::NotFound);
}
