use dockerfile_tags::dockerfile::Dockerfile;
use dockerfile_tags::dockerfile::Image;
use std::path::PathBuf;


#[test]
fn test_dockerfile_images_none() {
    let dockerfile = Dockerfile {
        path: PathBuf::new(),
        content: String::from(r"FROM"),
    };

    assert_eq!(dockerfile.images().len(), 0);
}

#[test]
fn test_dockerfile_images_one() {
    let dockerfile = Dockerfile {
        path: PathBuf::new(),
        content: String::from(r"FROM rust:latest"),
    };
    let images = dockerfile.images();

    assert_eq!(images.len(), 1);
    assert!(images.contains(&Image {
        repository: String::from("rust"),
        tag: Some(String::from("latest"))
    }));
}

#[test]
fn test_dockerfile_images_sha() {
    let dockerfile = Dockerfile {
        path: PathBuf::new(),
        content: String::from(r"FROM rust:8d81c7bb21fa44bf6dffa1c5c3eff9be08dcd81a"),
    };
    let images = dockerfile.images();

    assert_eq!(images.len(), 1);
    assert!(images.contains(&Image {
        repository: String::from("rust"),
        tag: Some(String::from("8d81c7bb21fa44bf6dffa1c5c3eff9be08dcd81a"))
    }));
}

#[test]
fn test_dockerfile_images_multiple() {
    let dockerfile = Dockerfile {
        path: PathBuf::new(),
        content: String::from(
            r"FROM rust:latest
                FROM alpine",
        ),
    };
    let images = dockerfile.images();

    assert_eq!(images.len(), 2);
    assert!(images.contains(&Image {
        repository: String::from("rust"),
        tag: Some(String::from("latest"))
    }));
    assert!(images.contains(&Image {
        repository: String::from("alpine"),
        tag: None
    }));
}

#[test]
fn test_dockerfile_images_multistage_copy() {
    let dockerfile = Dockerfile {
        path: PathBuf::new(),
        content: String::from(
            r"FROM rust:latest AS builder
                FROM alpine
                COPY --from=builder",
        ),
    };
    let images = dockerfile.images();

    assert_eq!(images.len(), 2);
    assert!(images.contains(&Image {
        repository: String::from("rust"),
        tag: Some(String::from("latest"))
    }));
    assert!(images.contains(&Image {
        repository: String::from("alpine"),
        tag: None
    }));
}

#[test]
fn test_dockerfile_images_multistage_alias() {
    let dockerfile = Dockerfile {
        path: PathBuf::new(),
        content: String::from(
            r"FROM rust:latest AS first
                FROM first AS second
                FROM alpine",
        ),
    };
    let images = dockerfile.images();

    assert_eq!(images.len(), 2);
    assert!(images.contains(&Image {
        repository: String::from("rust"),
        tag: Some(String::from("latest"))
    }));
    assert!(images.contains(&Image {
        repository: String::from("alpine"),
        tag: None
    }));
}

#[test]
fn test_dockerfile_image_tags_none() {
    let dockerfile = Dockerfile {
        path: PathBuf::new(),
        content: String::from(r"FROM rust"),
    };
    let invalid_images = dockerfile.validate().invalid_images;

    assert_eq!(invalid_images.len(), 1)
}

#[test]
fn test_dockerfile_image_tags_latest() {
    let dockerfile = Dockerfile {
        path: PathBuf::new(),
        content: String::from(r"FROM rust:latest"),
    };
    let invalid_images = dockerfile.validate().invalid_images;

    assert_eq!(invalid_images.len(), 1)
}

#[test]
fn test_dockerfile_image_tags_semver() {
    let dockerfile = Dockerfile {
        path: PathBuf::new(),
        content: String::from(
            r"FROM rust:1.41
                FROM alpine:3.11",
        ),
    };
    let invalid_images = dockerfile.validate().invalid_images;

    assert_eq!(invalid_images.len(), 0)
}

#[test]
fn test_dockerfile_image_tags_sha() {
    let dockerfile = Dockerfile {
        path: PathBuf::new(),
        content: String::from(r"FROM rust:8d81c7bb21fa44bf6dffa1c5c3eff9be08dcd81a"),
    };
    let invalid_images = dockerfile.validate().invalid_images;

    assert_eq!(invalid_images.len(), 1)
}

#[test]
fn test_dockerfile_image_tags_date() {
    let dockerfile = Dockerfile {
        path: PathBuf::new(),
        content: String::from(r"FROM ubuntu:20200112"),
    };
    let invalid_images = dockerfile.validate().invalid_images;

    assert_eq!(invalid_images.len(), 0)
}

#[test]
fn test_dockerfile_image_tags_datenumber() {
    let dockerfile = Dockerfile {
        path: PathBuf::new(),
        content: String::from(r"FROM eu.gcr.io/test/repository:2020011201"),
    };
    let invalid_images = dockerfile.validate().invalid_images;

    assert_eq!(invalid_images.len(), 0)
}

#[test]
fn test_dockerfile_image_tags_semver_and_latest() {
    let dockerfile = Dockerfile {
        path: PathBuf::new(),
        content: String::from(
            r"FROM rust:1.41
                FROM alpine:latest",
        ),
    };
    let invalid_images = dockerfile.validate().invalid_images;

    assert_eq!(invalid_images.len(), 1)
}

#[test]
fn test_dockerfile_image_tags_sha_and_date() {
    let dockerfile = Dockerfile {
        path: PathBuf::new(),
        content: String::from(
            r"FROM rust:8d81c7bb21fa44bf6dffa1c5c3eff9be08dcd81a
                FROM ubuntu:20200112",
        ),
    };
    let invalid_images = dockerfile.validate().invalid_images;

    assert_eq!(invalid_images.len(), 1);
}

#[test]
fn test_dockerfile_image_tags_semver_and_datenumber() {
    let dockerfile = Dockerfile {
        path: PathBuf::new(),
        content: String::from(
            r"FROM rust:1.41
                FROM eu.gcr.io/test/repository:2020011201",
        ),
    };
    let invalid_images = dockerfile.validate().invalid_images;

    assert_eq!(invalid_images.len(), 0)
}

#[test]
fn test_dockerfile_image_tags_prefix() {
    let dockerfile = Dockerfile {
        path: PathBuf::new(),
        content: String::from(r"FROM ubuntu:bionic-20200112"),
    };
    let invalid_images = dockerfile.validate().invalid_images;

    assert_eq!(invalid_images.len(), 0)
}

#[test]
fn test_dockerfile_image_tags_suffix() {
    let dockerfile = Dockerfile {
        path: PathBuf::new(),
        content: String::from(r"FROM ubuntu:20200112-bionic"),
    };
    let invalid_images = dockerfile.validate().invalid_images;

    assert_eq!(invalid_images.len(), 0)
}

#[test]
fn test_dockerfile_image_tags_multistage_copy() {
    let dockerfile = Dockerfile {
        path: PathBuf::new(),
        content: String::from(
            r"FROM rust:latest AS builder
                FROM alpine
                COPY --from=builder",
        ),
    };
    let invalid_images = dockerfile.validate().invalid_images;

    assert_eq!(invalid_images.len(), 2);
}

#[test]
fn test_dockerfile_image_tags_multistage_alias() {
    let dockerfile = Dockerfile {
        path: PathBuf::new(),
        content: String::from(
            r"FROM rust:1.41 AS first
                FROM first AS second
                FROM alpine:3.11",
        ),
    };
    let invalid_images = dockerfile.validate().invalid_images;

    assert_eq!(invalid_images.len(), 0);
}
