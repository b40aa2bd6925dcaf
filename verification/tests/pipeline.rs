use liteexif::image::Image;
use liteexif::pipeline::{BufferPath, NodeInput, NodeRoute, PipelineRun};

fn route(processor: &str) -> NodeRoute {
    NodeRoute { processor: processor.to_owned(), select: None, buffer_path: None }
}

#[test]
fn buffer_path_reloads_the_requested_image() {
    let input = Image::from_pixel(40, 30, [1, 2, 3, 255]);
    let replacement_path = "config/logos/default.png".to_owned();
    let mut blur = route("blur");
    blur.buffer_path = Some(BufferPath::Paths(vec![replacement_path.clone()]));
    let mut run = PipelineRun::start(vec![route("resize"), blur], input).unwrap();

    match run.take_input().unwrap() {
        NodeInput::Images(images) => assert_eq!(images.len(), 1),
        NodeInput::Paths(_) => panic!("the first node reads the source image"),
    }
    assert!(run.give_output(vec![Image::new(20, 15)]).is_none());
    let expected = Image::from_pixel(7, 5, [9, 9, 9, 255]);
    match run.take_input().unwrap() {
        NodeInput::Paths(paths) => assert_eq!(paths, vec![replacement_path]),
        NodeInput::Images(_) => panic!("a buffer_path node loads its own input"),
    }
    let output = run.give_output(vec![expected.duplicate()]).unwrap().unwrap();
    assert_eq!((output.width, output.height), (expected.width, expected.height));
}

#[test]
fn pipeline_without_nodes_is_refused() {
    let err = PipelineRun::start(Vec::new(), Image::new(1, 1)).err().unwrap();
    assert_eq!(err, "模板没有处理节点");
}

#[test]
fn select_must_name_an_earlier_buffer() {
    let mut first = route("blur");
    first.select = Some(vec![Some(1)]);
    let err = PipelineRun::start(vec![first], Image::new(1, 1)).err().unwrap();
    assert_eq!(err, "无效的缓冲区索引: 1");
    let mut first = route("blur");
    first.select = Some(vec![Some(-3)]);
    let err = PipelineRun::start(vec![first], Image::new(1, 1)).err().unwrap();
    assert_eq!(err, "无效的缓冲区索引: -3");
    let mut first = route("blur");
    first.select = Some(vec![None]);
    let err = PipelineRun::start(vec![first], Image::new(1, 1)).err().unwrap();
    assert_eq!(err, "select 必须是整数索引");
}

#[test]
fn mergers_gather_every_buffer_since_the_last_merger() {
    let mut run = PipelineRun::start(
        vec![route("solid_color"), route("rich_text"), route("concat")],
        Image::from_pixel(1, 1, [0, 0, 0, 255]),
    )
    .unwrap();
    let _ = run.take_input().unwrap();
    assert!(run.give_output(vec![Image::from_pixel(2, 1, [1, 1, 1, 255])]).is_none());
    let _ = run.take_input().unwrap();
    assert!(run.give_output(vec![Image::from_pixel(3, 1, [2, 2, 2, 255])]).is_none());
    match run.take_input().unwrap() {
        NodeInput::Images(images) => {
            let widths: Vec<u32> = images.iter().map(|image| image.width).collect();
            assert_eq!(widths, vec![1, 2, 3]);
        }
        NodeInput::Paths(_) => panic!("a merger reads buffers"),
    }
    let done = run.give_output(Vec::new()).unwrap();
    assert_eq!(done.err().unwrap(), "处理器没有生成图像");
}

#[test]
fn select_reads_chosen_buffers_in_order() {
    let mut last = route("alignment");
    last.select = Some(vec![Some(-1), Some(0)]);
    let mut run = PipelineRun::start(vec![route("blur"), last], Image::from_pixel(1, 1, [0, 0, 0, 255])).unwrap();
    let _ = run.take_input().unwrap();
    assert!(run.give_output(vec![Image::from_pixel(4, 1, [1, 1, 1, 255])]).is_none());
    match run.take_input().unwrap() {
        NodeInput::Images(images) => {
            let widths: Vec<u32> = images.iter().map(|image| image.width).collect();
            assert_eq!(widths, vec![4, 1]);
        }
        NodeInput::Paths(_) => panic!("select reads buffers"),
    }
}

#[test]
fn invalid_buffer_path_is_reported() {
    let mut node = route("blur");
    node.buffer_path = Some(BufferPath::Invalid);
    let mut run = PipelineRun::start(vec![node], Image::new(1, 1)).unwrap();
    assert_eq!(run.take_input().err().unwrap(), "buffer_path 必须是路径或路径数组");
}

#[test]
fn plain_nodes_form_a_chain() {
    let mut run = PipelineRun::start(vec![route("resize"), route("blur"), route("trim")], Image::new(3, 1)).unwrap();
    for (width, next) in [(3u32, 4u32), (4, 5), (5, 6)] {
        match run.take_input().unwrap() {
            NodeInput::Images(images) => {
                assert_eq!(images.len(), 1);
                assert_eq!(images[0].width, width);
            }
            NodeInput::Paths(_) => panic!("plain nodes read the previous output"),
        }
        let done = run.give_output(vec![Image::new(next, 1)]);
        if next < 6 {
            assert!(done.is_none());
        } else {
            assert_eq!(done.unwrap().unwrap().width, 6);
        }
    }
}
