# zkml

Verified building blocks of a verifiable neural network inference: quantised tensors and layers,
models as graphs of layers, and what the provers and verifiers of the layers compute between the
messages of their protocols. Everything under `src/` is checked by Verus.

- `field`, `prime`, `fft`, `mle`, `commit`: the field with its quadratic extension, why every
  element but zero has an inverse, number-theoretic Fourier transforms, multilinear extensions and
  equality polynomials.
- `shape`, `tensor`, `ops`, `quantization`, `vector`: shapes, tensors and their operations.
- `layers`: dense layers, convolutions by transforms and entry by entry, activations, pooling,
  flattening and requantisation: running, setting up, proving and verifying.
- `lookup`: witnesses and inputs of lookup arguments.
- `model`: building a model, running it, describing it.
- `iop`: the course of a verification, from the outputs of a model back to its inputs.
- `bench`, `text`: samples, rows of measurements, texts.

The laws of the library are the public proof functions whose names start with `law_`.

What needs floating point or a proof system stands in `app/`: a program that loads a model with real
weights, quantises it, runs it on samples and measures it. The sum-checks, lookup arguments and
commitments of a proof system are plugged in there through a trait.
