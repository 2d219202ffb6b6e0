cbuffer CameraCB : register(b0) {
    float4x4 viewProj;
    float aspect;
    float planeScale;
    float texW;
    float texH;
    float liftY;
    float camU;
    float camV;
    float tint;
    float hiOn;
    float hiTexW;
    float hiTexH;
    float hiGrid;
    float texVShift;
    float3 _pad;
    float4 tileAffine[5];
    float4 tileCoverA;
    float tileCoverLive;
    float3 _pad2;
};
