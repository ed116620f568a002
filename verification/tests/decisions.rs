use panoptes::commands::{
    catalog_config, choose_engine, generic_onnx_config, resolve_model, CatalogModel, EngineChoice,
    EngineError, ModelSource,
};
use panoptes::model::{InputSpec, TaskType};
use panoptes::onnx::{
    choose_runtime, detection_output, output_parser, runtime_candidates, segmentation_output,
    OnnxError, OutputParser, RuntimeChoice, RuntimeOverride, RuntimeProblem, SegmentationOutput,
};
use panoptes::outline::collapse_collinear;

#[test]
fn catalog_names() {
    assert_eq!(catalog_config("buildings"), Some(CatalogModel::Buildings));
    assert_eq!(catalog_config("roads"), Some(CatalogModel::Roads));
    assert_eq!(catalog_config("vegetation"), Some(CatalogModel::Vegetation));
    assert_eq!(catalog_config("landcover"), Some(CatalogModel::Landcover));
    assert_eq!(catalog_config("change"), None);
    assert_eq!(catalog_config("Buildings"), None);
}

#[test]
fn generic_config_is_two_class_segmentation() {
    let cfg = generic_onnx_config("m.onnx", 256, true);
    assert_eq!(cfg.name, "user-onnx (m.onnx)");
    assert_eq!(cfg.version, "user");
    assert_eq!(cfg.task, TaskType::Segmentation);
    assert_eq!(
        cfg.input,
        InputSpec { channels: 3, height: 256, width: 256, imagenet_normalize: true }
    );
    assert_eq!(cfg.classes.len(), 2);
    assert_eq!((cfg.classes[0].id, cfg.classes[0].name.as_str(), cfg.classes[0].color), (0, "background", [0, 0, 0]));
    assert_eq!((cfg.classes[1].id, cfg.classes[1].name.as_str(), cfg.classes[1].color), (1, "foreground", [255, 0, 0]));
    assert_eq!(cfg.model_path.as_deref(), Some("m.onnx"));
}

#[test]
fn resolve_catalog_user_file_and_unknown() {
    match resolve_model("buildings", 512, false, false).unwrap() {
        ModelSource::Catalog(c) => assert_eq!(c, CatalogModel::Buildings),
        other => panic!("expected catalog, got {other:?}"),
    }
    match resolve_model("x/model.onnx", 128, false, true).unwrap() {
        ModelSource::UserFile(cfg) => {
            assert_eq!(cfg.name, "user-onnx (x/model.onnx)");
            assert_eq!(cfg.input.height, 128);
        }
        other => panic!("expected user file, got {other:?}"),
    }
    let err = resolve_model("nope", 512, false, false).unwrap_err();
    assert_eq!(
        err,
        "Unknown model 'nope': not a catalog name and not an existing file.\nSee the README (Model weights, Model contract) for the catalog models and for what a --model file must be."
    );
}

#[test]
fn engine_selection() {
    assert_eq!(choose_engine("threshold", true, true), Ok(EngineChoice::Threshold));
    assert_eq!(choose_engine("onnx", true, true), Ok(EngineChoice::Onnx));
    assert_eq!(choose_engine("onnx", false, true), Err(EngineError::OnnxNeedsModel));
    assert_eq!(choose_engine("onnx", true, false), Err(EngineError::NoOnnxSupport));
    assert_eq!(choose_engine("auto", true, true), Ok(EngineChoice::Onnx));
    assert_eq!(choose_engine("auto", false, true), Ok(EngineChoice::Threshold));
    assert_eq!(choose_engine("auto", true, false), Ok(EngineChoice::ThresholdWithoutOnnx));
    assert_eq!(choose_engine("gpu", true, true), Err(EngineError::UnknownEngine));
}

#[test]
fn runtime_choice() {
    let none = vec![false; 8];
    let some = vec![false, false, true, false, true, false, false, false];
    assert_eq!(choose_runtime(RuntimeOverride::Existing, &none), Ok(RuntimeChoice::FromEnvironment));
    assert_eq!(choose_runtime(RuntimeOverride::Empty, &none), Ok(RuntimeChoice::FromEnvironment));
    assert_eq!(choose_runtime(RuntimeOverride::Missing, &some), Err(RuntimeProblem::MissingOverride));
    assert_eq!(choose_runtime(RuntimeOverride::Unset, &some), Ok(RuntimeChoice::Candidate(2)));
    assert_eq!(choose_runtime(RuntimeOverride::Unset, &none), Err(RuntimeProblem::NotFound));
    let c = runtime_candidates();
    assert_eq!(c.len(), 8);
    assert_eq!(c[0], "/lib64/libonnxruntime.so");
    assert_eq!(c[7], "/usr/local/lib/libonnxruntime.so.1");
}

#[test]
fn segmentation_shapes() {
    assert_eq!(
        segmentation_output(&[1, 1, 16, 32]),
        Ok(SegmentationOutput::Probability { height: 16, width: 32 })
    );
    assert_eq!(
        segmentation_output(&[1, 16, 32]),
        Ok(SegmentationOutput::Probability { height: 16, width: 32 })
    );
    assert_eq!(
        segmentation_output(&[1, 3, 8, 9]),
        Ok(SegmentationOutput::Logits { classes: 3, height: 8, width: 9 })
    );
    assert_eq!(segmentation_output(&[1, 2]), Err(OnnxError::OutputShape(vec![1, 2])));
    assert_eq!(
        segmentation_output(&[1, 2, 3, 4, 5]),
        Err(OnnxError::OutputShape(vec![1, 2, 3, 4, 5]))
    );
}

#[test]
fn detection_shapes() {
    assert_eq!(detection_output(&[1, 10, 6]), Ok((10, 6)));
    assert_eq!(detection_output(&[1, 10, 7]), Ok((10, 7)));
    assert_eq!(detection_output(&[1, 10, 5]), Err(OnnxError::OutputShape(vec![1, 10, 5])));
    assert_eq!(detection_output(&[10, 6]), Err(OnnxError::OutputShape(vec![10, 6])));
}

#[test]
fn parsers_for_tasks() {
    assert_eq!(output_parser(TaskType::Segmentation), OutputParser::Segmentation);
    assert_eq!(output_parser(TaskType::ChangeDetection), OutputParser::Segmentation);
    assert_eq!(output_parser(TaskType::Detection), OutputParser::Detection);
    assert_eq!(output_parser(TaskType::Classification), OutputParser::Classification);
}

#[test]
fn collapse_removes_straight_runs() {
    let ring = vec![(0, 0), (1, 0), (2, 0), (2, 1), (2, 2), (0, 2), (0, 1), (0, 0)];
    assert_eq!(collapse_collinear(ring), vec![(0, 0), (2, 0), (2, 2), (0, 2), (0, 0)]);
}

#[test]
fn collapse_short_and_empty_rings() {
    assert_eq!(collapse_collinear(vec![]), vec![]);
    assert_eq!(collapse_collinear(vec![(1, 1)]), vec![(1, 1), (1, 1)]);
    assert_eq!(collapse_collinear(vec![(1, 1), (1, 1)]), vec![(1, 1), (1, 1)]);
    assert_eq!(collapse_collinear(vec![(0, 0), (3, 0), (0, 0)]), vec![(0, 0), (3, 0), (0, 0)]);
    // an open ring is closed again after collapsing
    assert_eq!(
        collapse_collinear(vec![(0, 0), (1, 0), (1, 1), (0, 1)]),
        vec![(0, 0), (1, 0), (1, 1), (0, 1), (0, 0)]
    );
    // all vertices on one line: nothing is a corner
    assert_eq!(collapse_collinear(vec![(0, 0), (1, 0), (2, 0), (0, 0)]), vec![]);
}

#[test]
fn collapsing_twice_is_collapsing_once() {
    let ring = vec![(0, 0), (1, 0), (2, 0), (2, 1), (2, 2), (1, 2), (0, 2), (0, 1), (0, 0)];
    let once = collapse_collinear(ring.clone());
    assert_eq!(once, vec![(0, 0), (2, 0), (2, 2), (0, 2), (0, 0)]);
    assert_eq!(collapse_collinear(once.clone()), once);
}
